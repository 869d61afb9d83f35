//! What makes it safe to compose placement publication with staging, activation, restart and
//! write fencing at the nodes.
//!
//! That a generation was committed is an input here: this module says what must hold once a
//! generation is published or committed, not why the log agrees on it.

use crate::decimal;
use crate::decimal::{append_number, append_text};
use std::collections::{BTreeMap, BTreeSet};
use vstd::prelude::*;
use vstd::std_specs::cmp::OrdSpec;
use vstd::std_specs::iter::IteratorSpec;

verus! {

/// A leadership term.
pub type Term = u64;

/// A placement generation.
pub type Generation = u64;

/// A shard.
pub type ShardId = u16;

/// A node.
pub type NodeId = u16;

/// Whether a publisher leads.
#[derive(Clone, Copy, Debug, PartialEq, Eq, Structural)]
pub enum BrainRole {
    Leader,
    Follower,
}

/// Why an operation was refused.
#[allow(inconsistent_fields)]
#[derive(Clone, Debug, PartialEq, Eq)]
pub enum ModelError {
    InvalidTerm,
    InvalidGeneration,
    NotLeader,
    EmptyPlacement,
    EmptyReplicaSet(ShardId),
    DuplicateReplica { shard: ShardId, node: NodeId },
    GenerationOverflow,
    UnknownPublishedGeneration(Generation),
    ConflictingGeneration(Generation),
    NonSequentialCommit { expected: Generation, provided: Generation },
    UncommittedGeneration { committed: Generation, requested: Generation },
    StaleTerm { observed: Term, provided: Term },
    StaleGeneration { active: Generation, provided: Generation },
    NoStagedPlacement,
    AckGenerationMismatch { staged: Generation, provided: Generation },
    ShardNotAssigned(ShardId),
    PartialActivation(Vec<ShardId>),
    NoActivePlacement,
    AuthorityMismatch { active: Generation, requested: Generation },
}

/// A text with a number behind it.
pub open spec fn with_number(s: Seq<char>, n: int) -> Seq<char> {
    s + decimal::decimal(n)
}

fn numbered(s: &str, n: u64) -> (r: String)
    ensures
        r@ == with_number(s@, n as int),
{
    let mut r = s.to_owned();
    append_number(&mut r, n);
    r
}

fn numbered_twice(s: &str, n: u64, t: &str, m: u64) -> (r: String)
    ensures
        r@ == with_number(with_number(s@, n as int) + t@, m as int),
{
    let mut r = numbered(s, n);
    append_text(&mut r, t);
    append_number(&mut r, m);
    r
}

fn numbered_then(s: &str, n: u64, t: &str) -> (r: String)
    ensures
        r@ == with_number(s@, n as int) + t@,
{
    let mut r = numbered(s, n);
    append_text(&mut r, t);
    r
}

impl ModelError {
    /// What the message of a refusal says.
    pub open spec fn text(&self) -> Seq<char> {
        match self {
            ModelError::InvalidTerm => "term must be non-zero"@,
            ModelError::InvalidGeneration => "generation must be non-zero"@,
            ModelError::NotLeader => "only the leader may publish or authorize"@,
            ModelError::EmptyPlacement => "placement must contain at least one shard"@,
            ModelError::EmptyReplicaSet(shard) => with_number("shard "@, *shard as int)
                + " has no replicas"@,
            ModelError::DuplicateReplica { shard, node } => with_number(
                with_number("shard "@, *shard as int) + " repeats node "@,
                *node as int,
            ),
            ModelError::GenerationOverflow => "placement generation overflow"@,
            ModelError::UnknownPublishedGeneration(g) => with_number("generation "@, *g as int)
                + " was not published in this term"@,
            ModelError::ConflictingGeneration(g) => with_number("generation "@, *g as int)
                + " has conflicting contents"@,
            ModelError::NonSequentialCommit { expected, provided } => with_number(
                with_number("commit must be sequential: expected "@, *expected as int)
                    + ", provided "@,
                *provided as int,
            ),
            ModelError::UncommittedGeneration { committed, requested } => with_number(
                with_number("write authority requires committed generation "@, *committed as int)
                    + ", requested "@,
                *requested as int,
            ),
            ModelError::StaleTerm { observed, provided } => with_number(
                with_number("stale term: observed "@, *observed as int) + ", provided "@,
                *provided as int,
            ),
            ModelError::StaleGeneration { active, provided } => with_number(
                with_number("stale generation: active/staged "@, *active as int) + ", provided "@,
                *provided as int,
            ),
            ModelError::NoStagedPlacement => "no placement is staged"@,
            ModelError::AckGenerationMismatch { staged, provided } => with_number(
                with_number("ack generation mismatch: staged "@, *staged as int) + ", provided "@,
                *provided as int,
            ),
            ModelError::ShardNotAssigned(shard) => with_number("shard "@, *shard as int)
                + " is not assigned to this node"@,
            ModelError::PartialActivation(missing) => with_number(
                "cannot activate before "@,
                missing@.len() as int,
            ) + " shard acknowledgement(s)"@,
            ModelError::NoActivePlacement => "no placement is active"@,
            ModelError::AuthorityMismatch { active, requested } => with_number(
                with_number("write authority generation mismatch: active "@, *active as int)
                    + ", requested "@,
                *requested as int,
            ),
        }
    }

    /// The message of a refusal.
    pub fn message(&self) -> (r: String)
        ensures
            r@ == self.text(),
    {
        match self {
            ModelError::InvalidTerm => "term must be non-zero".to_owned(),
            ModelError::InvalidGeneration => "generation must be non-zero".to_owned(),
            ModelError::NotLeader => "only the leader may publish or authorize".to_owned(),
            ModelError::EmptyPlacement => "placement must contain at least one shard".to_owned(),
            ModelError::EmptyReplicaSet(shard) => numbered_then(
                "shard ",
                *shard as u64,
                " has no replicas",
            ),
            ModelError::DuplicateReplica { shard, node } => numbered_twice(
                "shard ",
                *shard as u64,
                " repeats node ",
                *node as u64,
            ),
            ModelError::GenerationOverflow => "placement generation overflow".to_owned(),
            ModelError::UnknownPublishedGeneration(g) => numbered_then(
                "generation ",
                *g,
                " was not published in this term",
            ),
            ModelError::ConflictingGeneration(g) => numbered_then(
                "generation ",
                *g,
                " has conflicting contents",
            ),
            ModelError::NonSequentialCommit { expected, provided } => numbered_twice(
                "commit must be sequential: expected ",
                *expected,
                ", provided ",
                *provided,
            ),
            ModelError::UncommittedGeneration { committed, requested } => numbered_twice(
                "write authority requires committed generation ",
                *committed,
                ", requested ",
                *requested,
            ),
            ModelError::StaleTerm { observed, provided } => numbered_twice(
                "stale term: observed ",
                *observed,
                ", provided ",
                *provided,
            ),
            ModelError::StaleGeneration { active, provided } => numbered_twice(
                "stale generation: active/staged ",
                *active,
                ", provided ",
                *provided,
            ),
            ModelError::NoStagedPlacement => "no placement is staged".to_owned(),
            ModelError::AckGenerationMismatch { staged, provided } => numbered_twice(
                "ack generation mismatch: staged ",
                *staged,
                ", provided ",
                *provided,
            ),
            ModelError::ShardNotAssigned(shard) => numbered_then(
                "shard ",
                *shard as u64,
                " is not assigned to this node",
            ),
            ModelError::PartialActivation(missing) => numbered_then(
                "cannot activate before ",
                missing.len() as u64,
                " shard acknowledgement(s)",
            ),
            ModelError::NoActivePlacement => "no placement is active".to_owned(),
            ModelError::AuthorityMismatch { active, requested } => numbered_twice(
                "write authority generation mismatch: active ",
                *active,
                ", requested ",
                *requested,
            ),
        }
    }
}

/// Whether numbers stand in strictly ascending order.
pub open spec fn ascends(s: Seq<u16>) -> bool {
    forall|i: int, j: int| 0 <= i < j < s.len() ==> s[i] < s[j]
}

/// The members of a set in ascending order.
fn listed(set: &BTreeSet<u16>) -> (r: Vec<u16>)
    ensures
        ascends(r@),
        r@.to_set() == set@,
{
    broadcast use vstd::laws_cmp::group_laws_cmp;

    let mut r: Vec<u16> = Vec::new();
    for x in it: set.iter()
        invariant
            r.len() == it.index(),
            forall|k: int| 0 <= k < r.len() ==> r@[k] == *it.seq()[k],
    {
        r.push(*x);
    }
    proof {
        let ghost all = vstd::std_specs::btree::spec_btree_keys_iter(set).remaining();
        assert(r@ =~= all.unref());
        assert(vstd::laws_cmp::obeys_cmp::<&u16>());
        assert(vstd::std_specs::btree::increasing_seq(all));
        assert forall|i: int, j: int| 0 <= i < j < r@.len() implies r@[i] < r@[j] by {
            assert((&all[i]).cmp_spec(&all[j]) is Less);
        }
    }
    r
}

/// The keys of a map in ascending order.
fn listed_keys<V>(map: &BTreeMap<u16, V>) -> (r: Vec<u16>)
    ensures
        ascends(r@),
        r@.to_set() == map@.dom(),
{
    broadcast use vstd::laws_cmp::group_laws_cmp;

    let mut r: Vec<u16> = Vec::new();
    for x in it: map.keys()
        invariant
            r.len() == it.index(),
            forall|k: int| 0 <= k < r.len() ==> r@[k] == *it.seq()[k],
    {
        r.push(*x);
    }
    proof {
        let ghost all = vstd::std_specs::btree::spec_keys_iter(map).remaining();
        assert(r@ =~= all.unref());
        assert(vstd::laws_cmp::obeys_cmp::<&u16>());
        assert(vstd::std_specs::btree::increasing_seq(all));
        assert forall|i: int, j: int| 0 <= i < j < r@.len() implies r@[i] < r@[j] by {
            assert((&all[i]).cmp_spec(&all[j]) is Less);
        }
    }
    r
}

/// The order of the keys used here is a total one, as ordered collections need it.
proof fn keys_are_ordered()
    ensures
        vstd::laws_cmp::obeys_cmp::<u16>(),
        vstd::laws_cmp::obeys_cmp::<u64>(),
{
    broadcast use vstd::laws_cmp::group_laws_cmp;

}

/// Whether every member of one set is in another.
fn within(a: &BTreeSet<u16>, b: &BTreeSet<u16>) -> (r: bool)
    ensures
        r == a@.subset_of(b@),
{
    proof {
        keys_are_ordered();
    }
    let members = listed(a);
    let mut i: usize = 0;
    while i < members.len()
        invariant
            i <= members.len(),
            members@.to_set() == a@,
            forall|k: int| 0 <= k < i ==> b@.contains(#[trigger] members@[k]),
        decreases members.len() - i,
    {
        if !b.contains(&members[i]) {
            assert(members@.to_set().contains(members@[i as int]));
            return false;
        }
        i += 1;
    }
    assert forall|x: u16| a@.contains(x) implies b@.contains(x) by {
        assert(members@.to_set().contains(x));
        assert(members@.contains(x));
        assert(b@.contains(members@[members@.index_of(x)]));
    }
    true
}

/// The members of one set that are not in another, in ascending order.
fn difference(a: &BTreeSet<u16>, b: &BTreeSet<u16>) -> (r: Vec<u16>)
    ensures
        ascends(r@),
        r@.to_set() == a@.difference(b@),
{
    let members = listed(a);
    let mut r: Vec<u16> = Vec::new();
    let mut i: usize = 0;
    while i < members.len()
        invariant
            i <= members.len(),
            ascends(members@),
            ascends(r@),
            forall|k: int| 0 <= k < r.len() && i < members.len() ==> #[trigger] r@[k] < members@[i as int],
            forall|x: u16| #[trigger]
                r@.contains(x) <==> (exists|k: int| 0 <= k < i && members@[k] == x) && !b@.contains(
                    x,
                ),
        decreases members.len() - i,
    {
        proof {
            keys_are_ordered();
        }
        let x: u16 = members[i];
        if !b.contains(&x) {
            let ghost was = r@;
            r.push(x);
            assert forall|y: u16| #[trigger]
                r@.contains(y) <==> (exists|k: int| 0 <= k < i + 1 && members@[k] == y)
                    && !b@.contains(y) by {
                if was.contains(y) {
                    assert(r@[was.index_of(y)] == y);
                }
                if y == x {
                    assert(r@[was.len() as int] == y);
                    assert(members@[i as int] == y);
                }
                if r@.contains(y) {
                    let k = r@.index_of(y);
                    assert(k < was.len() ==> was[k] == y);
                }
            }
        }
        i += 1;
    }
    assert forall|x: u16| r@.contains(x) == a@.difference(b@).contains(x) by {
        if a@.contains(x) {
            assert(members@.to_set().contains(x));
            assert(members@[members@.index_of(x)] == x);
        }
        if exists|k: int| 0 <= k < i && members@[k] == x {
            let k = choose|k: int| 0 <= k < i && members@[k] == x;
            assert(members@.to_set().contains(members@[k]));
        }
    }
    assert(r@.to_set() =~= a@.difference(b@));
    r
}

/// The contents of a complete placement.
#[verifier::ext_equal]
pub struct SnapshotModel {
    pub term: Term,
    pub generation: Generation,
    pub assignments: Map<ShardId, Set<NodeId>>,
}

/// The shards that assignments give to a node.
pub open spec fn shards_of(assignments: Map<ShardId, Set<NodeId>>, node: NodeId) -> Set<ShardId> {
    Set::new(|s: ShardId| assignments.dom().contains(s) && assignments[s].contains(node))
}

/// The first node that is listed a second time.
pub open spec fn first_repeat(nodes: Seq<NodeId>) -> Option<NodeId>
    decreases nodes.len(),
{
    if nodes.len() == 0 {
        None
    } else {
        match first_repeat(nodes.drop_last()) {
            Some(n) => Some(n),
            None => if nodes.drop_last().contains(nodes.last()) {
                Some(nodes.last())
            } else {
                None
            },
        }
    }
}

/// What is wrong with the replicas listed for a shard.
pub open spec fn replica_fault(shard: ShardId, nodes: Seq<NodeId>) -> Option<ModelError> {
    if nodes.len() == 0 {
        Some(ModelError::EmptyReplicaSet(shard))
    } else {
        match first_repeat(nodes) {
            Some(node) => Some(ModelError::DuplicateReplica { shard, node }),
            None => None,
        }
    }
}

/// Whether a shard is the first whose replicas are faulty.
pub open spec fn first_faulty(plan: Map<ShardId, Seq<NodeId>>, shard: ShardId) -> bool {
    &&& plan.dom().contains(shard)
    &&& replica_fault(shard, plan[shard]) is Some
    &&& forall|s: ShardId| #[trigger]
        plan.dom().contains(s) && s < shard ==> replica_fault(s, plan[s]) is None
}

/// Why a placement is refused.
pub open spec fn placement_fault(
    term: Term,
    generation: Generation,
    plan: Map<ShardId, Seq<NodeId>>,
) -> Option<ModelError> {
    if term == 0 {
        Some(ModelError::InvalidTerm)
    } else if generation == 0 {
        Some(ModelError::InvalidGeneration)
    } else if plan.dom().is_empty() {
        Some(ModelError::EmptyPlacement)
    } else if exists|s: ShardId| first_faulty(plan, s) {
        let s = choose|s: ShardId| first_faulty(plan, s);
        replica_fault(s, plan[s])
    } else {
        None
    }
}

/// The placement that a plan makes, its replica lists as sets.
pub open spec fn canonical(
    term: Term,
    generation: Generation,
    plan: Map<ShardId, Seq<NodeId>>,
) -> SnapshotModel {
    SnapshotModel {
        term,
        generation,
        assignments: plan.map_values(|nodes: Seq<NodeId>| nodes.to_set()),
    }
}

/// The replica lists of a plan.
pub open spec fn plan_of(plan: BTreeMap<ShardId, Vec<NodeId>>) -> Map<ShardId, Seq<NodeId>> {
    plan@.map_values(|nodes: Vec<NodeId>| nodes@)
}

/// Which nodes hold which shard.
#[derive(Debug, PartialEq, Eq)]
pub struct ReplicaSets {
    sets: BTreeMap<ShardId, BTreeSet<NodeId>>,
}

impl View for ReplicaSets {
    type V = Map<ShardId, Set<NodeId>>;

    closed spec fn view(&self) -> Map<ShardId, Set<NodeId>> {
        self.sets@.map_values(|nodes: BTreeSet<NodeId>| nodes@)
    }
}

impl Clone for ReplicaSets {
    fn clone(&self) -> (r: Self)
        ensures
            r@ == self@,
    {
        ReplicaSets { sets: self.sets.clone() }
    }
}

/// A complete placement of one generation.
#[derive(Debug, PartialEq, Eq)]
pub struct PlacementSnapshot {
    pub term: Term,
    pub generation: Generation,
    pub assignments: ReplicaSets,
}

impl View for PlacementSnapshot {
    type V = SnapshotModel;

    open spec fn view(&self) -> SnapshotModel {
        SnapshotModel {
            term: self.term,
            generation: self.generation,
            assignments: self.assignments@,
        }
    }
}

impl Clone for PlacementSnapshot {
    fn clone(&self) -> (r: Self)
        ensures
            r@ == self@,
    {
        PlacementSnapshot {
            term: self.term,
            generation: self.generation,
            assignments: self.assignments.clone(),
        }
    }
}

/// The nodes of a list as a set, or the first that is listed a second time.
fn distinct(nodes: &Vec<NodeId>) -> (r: Result<BTreeSet<NodeId>, NodeId>)
    ensures
        match r {
            Ok(set) => first_repeat(nodes@) is None && set@ == nodes@.to_set(),
            Err(n) => first_repeat(nodes@) == Some(n),
        },
{
    proof {
        keys_are_ordered();
    }
    let ghost all = nodes@;
    let mut unique: BTreeSet<NodeId> = BTreeSet::new();
    let mut i: usize = 0;
    assert(unique@ =~= all.take(0).to_set());
    while i < nodes.len()
        invariant
            i <= nodes.len(),
            all == nodes@,
            first_repeat(all.take(i as int)) is None,
            unique@ == all.take(i as int).to_set(),
        decreases nodes.len() - i,
    {
        let ghost before = all.take(i as int);
        let ghost after = all.take(i + 1);
        let node: NodeId = nodes[i];
        assert(after.drop_last() =~= before);
        assert(after =~= before.push(node));
        assert(before.contains(node) == unique@.contains(node));
        if !unique.insert(node) {
            proof {
                repeat_is_kept(all, i + 1);
            }
            return Err(node);
        }
        assert(unique@ =~= after.to_set()) by {
            assert forall|x: NodeId| unique@.contains(x) == after.contains(x) by {
                if before.contains(x) {
                    assert(after[before.index_of(x)] == x);
                }
                if x == node {
                    assert(after[i as int] == x);
                }
                if after.contains(x) {
                    let k = after.index_of(x);
                    assert(k < i ==> before[k] == x);
                }
            }
        }
        i += 1;
    }
    assert(all.take(all.len() as int) =~= all);
    Ok(unique)
}

proof fn repeat_is_kept(nodes: Seq<NodeId>, n: int)
    requires
        0 <= n <= nodes.len(),
        first_repeat(nodes.take(n)) is Some,
    ensures
        first_repeat(nodes) == first_repeat(nodes.take(n)),
    decreases nodes.len() - n,
{
    if n < nodes.len() {
        assert(nodes.take(n + 1).drop_last() =~= nodes.take(n));
        repeat_is_kept(nodes, n + 1);
    } else {
        assert(nodes.take(n) =~= nodes);
    }
}

proof fn first_faulty_is_unique(plan: Map<ShardId, Seq<NodeId>>, a: ShardId, b: ShardId)
    requires
        first_faulty(plan, a),
        first_faulty(plan, b),
    ensures
        a == b,
{
}

impl PlacementSnapshot {
    /// Makes a placement, unless the term or the generation is missing, it places nothing, or some
    /// shard has no replicas or lists one twice.
    pub fn new(
        term: Term,
        generation: Generation,
        assignments: BTreeMap<ShardId, Vec<NodeId>>,
    ) -> (r: Result<Self, ModelError>)
        ensures
            match r {
                Ok(s) => {
                    &&& placement_fault(term, generation, plan_of(assignments)) is None
                    &&& s.term == term
                    &&& s.generation == generation
                    &&& s@ == canonical(term, generation, plan_of(assignments))
                },
                Err(e) => placement_fault(term, generation, plan_of(assignments)) == Some(e),
            },
    {
        proof {
            keys_are_ordered();
        }
        if term == 0 {
            return Err(ModelError::InvalidTerm);
        }
        if generation == 0 {
            return Err(ModelError::InvalidGeneration);
        }
        let ghost plan = plan_of(assignments);
        assert(plan.dom() =~= assignments@.dom());
        if assignments.is_empty() {
            assert(plan.dom() =~= Set::empty());
            return Err(ModelError::EmptyPlacement);
        }
        assert(!plan.dom().is_empty()) by {
            if plan.dom().is_empty() {
                assert(assignments@.dom() =~= Set::empty());
                assert(assignments@ =~= Map::empty());
            }
        }
        let shards = listed_keys(&assignments);
        let mut sets: BTreeMap<ShardId, BTreeSet<NodeId>> = BTreeMap::new();
        let mut i: usize = 0;
        while i < shards.len()
            invariant
                i <= shards.len(),
                ascends(shards@),
                term > 0,
                generation > 0,
                plan == plan_of(assignments),
                !plan.dom().is_empty(),
                shards@.to_set() == assignments@.dom(),
                plan.dom() == assignments@.dom(),
                forall|k: int| 0 <= k < i ==> replica_fault(
                    #[trigger] shards@[k],
                    plan[shards@[k]],
                ) is None,
                forall|s: ShardId| #[trigger]
                    sets@.dom().contains(s) <==> exists|k: int| 0 <= k < i && shards@[k] == s,
                forall|s: ShardId| #[trigger]
                    sets@.dom().contains(s) ==> sets@[s]@ == plan[s].to_set(),
            decreases shards.len() - i,
        {
            proof {
                keys_are_ordered();
            }
            let shard: ShardId = shards[i];
            assert(shards@.to_set().contains(shard));
            assert forall|s: ShardId| #[trigger]
                plan.dom().contains(s) && s < shard implies replica_fault(s, plan[s]) is None by {
                assert(shards@.to_set().contains(s));
                let k = shards@.index_of(s);
                assert(shards@[k] == s);
            }
            match assignments.get(&shard) {
                Some(nodes) => {
                    assert(plan[shard] == nodes@);
                    if nodes.is_empty() {
                        proof {
                            assert(first_faulty(plan, shard));
                            first_faulty_is_unique(
                                plan,
                                shard,
                                choose|s: ShardId| first_faulty(plan, s),
                            );
                        }
                        return Err(ModelError::EmptyReplicaSet(shard));
                    }
                    match distinct(nodes) {
                        Ok(set) => {
                            let _ = sets.insert(shard, set);
                        },
                        Err(node) => {
                            proof {
                                assert(first_faulty(plan, shard));
                                first_faulty_is_unique(
                                    plan,
                                    shard,
                                    choose|s: ShardId| first_faulty(plan, s),
                                );
                            }
                            return Err(ModelError::DuplicateReplica { shard, node });
                        },
                    }
                },
                None => {},
            }
            i += 1;
        }
        let s = PlacementSnapshot { term, generation, assignments: ReplicaSets { sets } };
        proof {
            assert forall|x: ShardId| sets@.dom().contains(x) == plan.dom().contains(x) by {
                if plan.dom().contains(x) {
                    assert(shards@.to_set().contains(x));
                    assert(shards@[shards@.index_of(x)] == x);
                }
                if sets@.dom().contains(x) {
                    let k = choose|k: int| 0 <= k < i && shards@[k] == x;
                    assert(shards@.to_set().contains(shards@[k]));
                }
            }
            assert(s@.assignments =~= canonical(term, generation, plan).assignments);
            if exists|x: ShardId| first_faulty(plan, x) {
                let x = choose|x: ShardId| first_faulty(plan, x);
                assert(shards@.to_set().contains(x));
                assert(shards@[shards@.index_of(x)] == x);
            }
        }
        Ok(s)
    }

    /// The nodes assigned to a shard.
    pub fn replicas(&self, shard: ShardId) -> (r: Option<&BTreeSet<NodeId>>)
        ensures
            match r {
                Some(nodes) => self@.assignments.dom().contains(shard) && nodes@
                    == self@.assignments[shard],
                None => !self@.assignments.dom().contains(shard),
            },
    {
        proof {
            keys_are_ordered();
        }
        self.assignments.sets.get(&shard)
    }

    /// The shards assigned to a node.
    pub fn shards_for(&self, node: NodeId) -> (r: BTreeSet<ShardId>)
        ensures
            r@ == shards_of(self@.assignments, node),
    {
        proof {
            keys_are_ordered();
        }
        let shards = listed_keys(&self.assignments.sets);
        let mut r: BTreeSet<ShardId> = BTreeSet::new();
        let mut i: usize = 0;
        while i < shards.len()
            invariant
                i <= shards.len(),
                shards@.to_set() == self.assignments.sets@.dom(),
                forall|s: ShardId| #[trigger]
                    r@.contains(s) <==> (exists|k: int| 0 <= k < i && shards@[k] == s)
                        && self@.assignments[s].contains(node),
            decreases shards.len() - i,
        {
            proof {
                keys_are_ordered();
            }
            let shard: ShardId = shards[i];
            assert(shards@.to_set().contains(shard));
            if let Some(nodes) = self.assignments.sets.get(&shard) {
                assert(self@.assignments[shard] == nodes@);
                if nodes.contains(&node) {
                    let _ = r.insert(shard);
                }
            }
            i += 1;
        }
        assert forall|s: ShardId| r@.contains(s) == shards_of(self@.assignments, node).contains(s) by {
            if self.assignments.sets@.dom().contains(s) {
                assert(shards@.to_set().contains(s));
                assert(shards@[shards@.index_of(s)] == s);
            }
            if exists|k: int| 0 <= k < i && shards@[k] == s {
                let k = choose|k: int| 0 <= k < i && shards@[k] == s;
                assert(shards@.to_set().contains(shards@[k]));
            }
        }
        assert(r@ =~= shards_of(self@.assignments, node));
        r
    }

    /// Whether every shard of this placement has the same nodes in another.
    fn agrees_with(&self, other: &Self) -> (r: bool)
        ensures
            r == (forall|s: ShardId| #[trigger]
                self@.assignments.dom().contains(s) ==> other@.assignments.dom().contains(s)
                    && self@.assignments[s] == other@.assignments[s]),
    {
        proof {
            keys_are_ordered();
        }
        let shards = listed_keys(&self.assignments.sets);
        let mut i: usize = 0;
        while i < shards.len()
            invariant
                i <= shards.len(),
                shards@.to_set() == self.assignments.sets@.dom(),
                forall|k: int| 0 <= k < i ==> other@.assignments.dom().contains(
                    #[trigger] shards@[k],
                ) && self@.assignments[shards@[k]] == other@.assignments[shards@[k]],
            decreases shards.len() - i,
        {
            proof {
                keys_are_ordered();
            }
            let shard: ShardId = shards[i];
            assert(shards@.to_set().contains(shard));
            assert(self@.assignments.dom().contains(shard));
            match (self.assignments.sets.get(&shard), other.assignments.sets.get(&shard)) {
                (Some(mine), Some(theirs)) => {
                    assert(self@.assignments[shard] == mine@);
                    assert(other@.assignments[shard] == theirs@);
                    if !within(mine, theirs) || !within(theirs, mine) {
                        return false;
                    }
                    assert(mine@ =~= theirs@);
                },
                _ => {
                    return false;
                },
            }
            i += 1;
        }
        assert forall|s: ShardId| #[trigger] self@.assignments.dom().contains(
            s,
        ) implies other@.assignments.dom().contains(s) && self@.assignments[s]
            == other@.assignments[s] by {
            assert(shards@.to_set().contains(s));
            assert(shards@[shards@.index_of(s)] == s);
        }
        true
    }

    /// Whether two placements are the same.
    fn same(&self, other: &Self) -> (r: bool)
        ensures
            r == (self@ == other@),
    {
        let r = self.term == other.term && self.generation == other.generation
            && self.agrees_with(other) && other.agrees_with(self);
        if r {
            assert(self@.assignments =~= other@.assignments);
        }
        r
    }
}

/// The right to write under one generation in one term.
#[derive(Clone, Copy, Debug, PartialEq, Eq, Structural)]
pub struct WriteFence {
    pub term: Term,
    pub generation: Generation,
}

/// The value of a [`BrainPublisher`].
#[verifier::ext_equal]
pub struct PublisherModel {
    pub role: BrainRole,
    pub term: Term,
    pub last_published: Generation,
    pub committed: Generation,
    /// What was published in this term, by generation.
    pub published: Map<Generation, SnapshotModel>,
}

impl PublisherModel {
    /// The publisher in a role and a term it just entered.
    pub open spec fn entered(self, role: BrainRole, term: Term) -> PublisherModel {
        PublisherModel {
            role,
            term,
            last_published: self.committed,
            published: Map::empty(),
            ..self
        }
    }

    /// Why a publication is refused.
    pub open spec fn publication_fault(self, plan: Map<ShardId, Seq<NodeId>>) -> Option<
        ModelError,
    > {
        if self.role != BrainRole::Leader {
            Some(ModelError::NotLeader)
        } else if self.last_published == u64::MAX {
            Some(ModelError::GenerationOverflow)
        } else {
            placement_fault(self.term, (self.last_published + 1) as u64, plan)
        }
    }

    /// The placement that is published next.
    pub open spec fn next_snapshot(self, plan: Map<ShardId, Seq<NodeId>>) -> SnapshotModel {
        canonical(self.term, (self.last_published + 1) as u64, plan)
    }

    /// The publisher after a publication.
    pub open spec fn publishing(self, s: SnapshotModel) -> PublisherModel {
        PublisherModel {
            last_published: s.generation,
            published: self.published.insert(s.generation, s),
            ..self
        }
    }

    /// Why a commit is refused.
    pub open spec fn commit_fault(self, s: SnapshotModel) -> Option<ModelError> {
        if self.role != BrainRole::Leader {
            Some(ModelError::NotLeader)
        } else if s.term != self.term {
            Some(ModelError::StaleTerm { observed: self.term, provided: s.term })
        } else if s.generation == self.committed {
            None
        } else if self.committed == u64::MAX {
            Some(ModelError::GenerationOverflow)
        } else if s.generation != self.committed + 1 {
            Some(
                ModelError::NonSequentialCommit {
                    expected: (self.committed + 1) as u64,
                    provided: s.generation,
                },
            )
        } else if !self.published.dom().contains(s.generation) {
            Some(ModelError::UnknownPublishedGeneration(s.generation))
        } else if self.published[s.generation] != s {
            Some(ModelError::ConflictingGeneration(s.generation))
        } else {
            None
        }
    }

    /// Why write authority is refused.
    pub open spec fn fence_fault(self, generation: Generation) -> Option<ModelError> {
        if self.role != BrainRole::Leader {
            Some(ModelError::NotLeader)
        } else if generation != self.committed || generation == 0 {
            Some(
                ModelError::UncommittedGeneration {
                    committed: self.committed,
                    requested: generation,
                },
            )
        } else {
            None
        }
    }
}

/// The scheduler's side: where placements are published and committed.
#[derive(Clone, Debug, PartialEq, Eq)]
pub struct BrainPublisher {
    role: BrainRole,
    term: Term,
    last_published_generation: Generation,
    committed_generation: Generation,
    published: BTreeMap<Generation, PlacementSnapshot>,
}

impl View for BrainPublisher {
    type V = PublisherModel;

    closed spec fn view(&self) -> PublisherModel {
        PublisherModel {
            role: self.role,
            term: self.term,
            last_published: self.last_published_generation,
            committed: self.committed_generation,
            published: self.published@.map_values(|s: PlacementSnapshot| s@),
        }
    }
}

impl BrainPublisher {
    /// A publisher that knows what is committed and has published nothing in its term.
    pub fn new(role: BrainRole, term: Term, committed_generation: Generation) -> (r: Result<
        Self,
        ModelError,
    >)
        ensures
            match r {
                Ok(p) => term > 0 && p@ == (PublisherModel {
                    role,
                    term,
                    last_published: committed_generation,
                    committed: committed_generation,
                    published: Map::empty(),
                }),
                Err(e) => term == 0 && e == ModelError::InvalidTerm,
            },
    {
        if term == 0 {
            return Err(ModelError::InvalidTerm);
        }
        let p = BrainPublisher {
            role,
            term,
            last_published_generation: committed_generation,
            committed_generation,
            published: BTreeMap::new(),
        };
        assert(p@.published =~= Map::empty());
        Ok(p)
    }

    /// Whether this publisher leads.
    pub fn role(&self) -> (r: BrainRole)
        ensures
            r == self@.role,
    {
        self.role
    }

    /// The term.
    pub fn term(&self) -> (r: Term)
        ensures
            r == self@.term,
    {
        self.term
    }

    /// The generation committed last.
    pub fn committed_generation(&self) -> (r: Generation)
        ensures
            r == self@.committed,
    {
        self.committed_generation
    }

    fn enter(&mut self, role: BrainRole, term: Term)
        ensures
            final(self)@ == old(self)@.entered(role, term),
    {
        self.term = term;
        self.role = role;
        self.published.clear();
        self.last_published_generation = self.committed_generation;
        assert(self@.published =~= Map::empty());
    }

    /// Begins to lead in a new term. What was published in an earlier one counts no more.
    pub fn become_leader(&mut self, new_term: Term) -> (r: Result<(), ModelError>)
        ensures
            if new_term > old(self)@.term {
                r == Ok::<(), ModelError>(()) && final(self)@ == old(self)@.entered(
                    BrainRole::Leader,
                    new_term,
                )
            } else {
                &&& r == Err::<(), ModelError>(
                    ModelError::StaleTerm { observed: old(self)@.term, provided: new_term },
                )
                &&& final(self)@ == old(self)@
            },
    {
        if new_term <= self.term {
            return Err(ModelError::StaleTerm { observed: self.term, provided: new_term });
        }
        self.enter(BrainRole::Leader, new_term);
        Ok(())
    }

    /// Follows whoever leads in a term that is not over.
    pub fn step_down(&mut self, observed_term: Term) -> (r: Result<(), ModelError>)
        ensures
            if observed_term >= old(self)@.term {
                r == Ok::<(), ModelError>(()) && final(self)@ == old(self)@.entered(
                    BrainRole::Follower,
                    observed_term,
                )
            } else {
                &&& r == Err::<(), ModelError>(
                    ModelError::StaleTerm { observed: old(self)@.term, provided: observed_term },
                )
                &&& final(self)@ == old(self)@
            },
    {
        if observed_term < self.term {
            return Err(ModelError::StaleTerm { observed: self.term, provided: observed_term });
        }
        self.enter(BrainRole::Follower, observed_term);
        Ok(())
    }

    /// Publishes a placement under the next generation.
    pub fn publish_next(&mut self, assignments: BTreeMap<ShardId, Vec<NodeId>>) -> (r: Result<
        PlacementSnapshot,
        ModelError,
    >)
        ensures
            match r {
                Ok(s) => {
                    &&& old(self)@.publication_fault(plan_of(assignments)) is None
                    &&& s.term == old(self)@.term
                    &&& s.generation == old(self)@.last_published + 1
                    &&& s@ == old(self)@.next_snapshot(plan_of(assignments))
                    &&& final(self)@ == old(self)@.publishing(s@)
                },
                Err(e) => {
                    &&& old(self)@.publication_fault(plan_of(assignments)) == Some(e)
                    &&& final(self)@ == old(self)@
                },
            },
    {
        proof {
            keys_are_ordered();
        }
        if self.role != BrainRole::Leader {
            return Err(ModelError::NotLeader);
        }
        if self.last_published_generation == u64::MAX {
            return Err(ModelError::GenerationOverflow);
        }
        let generation: Generation = self.last_published_generation + 1;
        match PlacementSnapshot::new(self.term, generation, assignments) {
            Ok(snapshot) => {
                self.last_published_generation = generation;
                let _ = self.published.insert(generation, snapshot.clone());
                assert(self@.published =~= old(self)@.published.insert(generation, snapshot@));
                Ok(snapshot)
            },
            Err(e) => Err(e),
        }
    }

    /// Records that a published placement was committed. Generations are committed one after the
    /// other, and the one committed last may be reported again.
    pub fn commit(&mut self, snapshot: &PlacementSnapshot) -> (r: Result<(), ModelError>)
        ensures
            match r {
                Ok(_) => {
                    &&& old(self)@.commit_fault(snapshot@) is None
                    &&& final(self)@ == (PublisherModel {
                        committed: snapshot@.generation,
                        ..old(self)@
                    })
                },
                Err(e) => old(self)@.commit_fault(snapshot@) == Some(e) && final(self)@ == old(
                    self,
                )@,
            },
    {
        proof {
            keys_are_ordered();
        }
        if self.role != BrainRole::Leader {
            return Err(ModelError::NotLeader);
        }
        if snapshot.term != self.term {
            return Err(ModelError::StaleTerm { observed: self.term, provided: snapshot.term });
        }
        if snapshot.generation == self.committed_generation {
            return Ok(());
        }
        if self.committed_generation == u64::MAX {
            return Err(ModelError::GenerationOverflow);
        }
        let expected: Generation = self.committed_generation + 1;
        if snapshot.generation != expected {
            return Err(
                ModelError::NonSequentialCommit { expected, provided: snapshot.generation },
            );
        }
        match self.published.get(&snapshot.generation) {
            Some(published) => {
                assert(self@.published[snapshot.generation] == published@);
                if !published.same(snapshot) {
                    return Err(ModelError::ConflictingGeneration(snapshot.generation));
                }
            },
            None => {
                return Err(ModelError::UnknownPublishedGeneration(snapshot.generation));
            },
        }
        self.committed_generation = snapshot.generation;
        Ok(())
    }

    /// Issues write authority for the committed generation.
    pub fn write_fence(&self, generation: Generation) -> (r: Result<WriteFence, ModelError>)
        ensures
            match r {
                Ok(f) => self@.fence_fault(generation) is None && f == (WriteFence {
                    term: self@.term,
                    generation,
                }),
                Err(e) => self@.fence_fault(generation) == Some(e),
            },
    {
        if self.role != BrainRole::Leader {
            return Err(ModelError::NotLeader);
        }
        if generation != self.committed_generation || generation == 0 {
            return Err(
                ModelError::UncommittedGeneration {
                    committed: self.committed_generation,
                    requested: generation,
                },
            );
        }
        Ok(WriteFence { term: self.term, generation })
    }
}

/// What a node serves.
#[verifier::ext_equal]
pub struct ActiveModel {
    pub generation: Generation,
    pub shards: Set<ShardId>,
}

/// What a node prepares to serve.
#[verifier::ext_equal]
pub struct StagedModel {
    pub snapshot: SnapshotModel,
    pub assigned: Set<ShardId>,
    pub acknowledged: Set<ShardId>,
}

/// The value of a [`NodeReplica`].
#[verifier::ext_equal]
pub struct ReplicaModel {
    pub node_id: NodeId,
    pub observed_term: Term,
    pub active: Option<ActiveModel>,
    pub staged: Option<StagedModel>,
    pub fence: Option<WriteFence>,
}

impl ReplicaModel {
    /// What every node keeps: what is staged is newer than what is active, belongs to the term
    /// observed and was not acknowledged beyond it; and write authority is for the term observed
    /// and the generation that is active.
    pub open spec fn valid(self) -> bool {
        &&& self.staged matches Some(s) ==> {
            &&& s.snapshot.term == self.observed_term
            &&& s.assigned == shards_of(s.snapshot.assignments, self.node_id)
            &&& s.acknowledged.subset_of(s.assigned)
            &&& self.active matches Some(a) ==> a.generation < s.snapshot.generation
        }
        &&& self.fence matches Some(f) ==> {
            &&& f.term == self.observed_term
            &&& self.active is Some
            &&& self.active->0.generation == f.generation
        }
    }

    /// The node once it has seen a term that is not over. A newer term takes write authority away
    /// and drops what an older leader had staged.
    pub open spec fn observing(self, term: Term) -> ReplicaModel {
        if term > self.observed_term {
            ReplicaModel {
                observed_term: term,
                fence: None,
                staged: match self.staged {
                    Some(s) => if s.snapshot.term < term {
                        None
                    } else {
                        Some(s)
                    },
                    None => None,
                },
                ..self
            }
        } else {
            self
        }
    }

    /// Why a term is refused.
    pub open spec fn term_fault(self, term: Term) -> Option<ModelError> {
        if term == 0 {
            Some(ModelError::InvalidTerm)
        } else if term < self.observed_term {
            Some(ModelError::StaleTerm { observed: self.observed_term, provided: term })
        } else {
            None
        }
    }

    /// What comes of a placement, in a node that has observed its term.
    pub open spec fn stage_outcome(self, s: SnapshotModel) -> Result<StageOutcome, ModelError> {
        let mine = shards_of(s.assignments, self.node_id);
        if self.active is Some && s.generation < self.active->0.generation {
            Err(
                ModelError::StaleGeneration {
                    active: self.active->0.generation,
                    provided: s.generation,
                },
            )
        } else if self.active is Some && s.generation == self.active->0.generation {
            if mine == self.active->0.shards {
                Ok(StageOutcome::DuplicateActive)
            } else {
                Err(ModelError::ConflictingGeneration(s.generation))
            }
        } else if self.staged is Some && s.generation < self.staged->0.snapshot.generation {
            Err(
                ModelError::StaleGeneration {
                    active: self.staged->0.snapshot.generation,
                    provided: s.generation,
                },
            )
        } else if self.staged is Some && s.generation == self.staged->0.snapshot.generation {
            if s == self.staged->0.snapshot {
                Ok(StageOutcome::DuplicateStaged)
            } else {
                Err(ModelError::ConflictingGeneration(s.generation))
            }
        } else {
            Ok(StageOutcome::Staged)
        }
    }

    /// What comes of the delivery of a placement.
    pub open spec fn stage_result(self, s: SnapshotModel) -> Result<StageOutcome, ModelError> {
        if s.term < self.observed_term {
            Err(ModelError::StaleTerm { observed: self.observed_term, provided: s.term })
        } else if s.term == 0 {
            Err(ModelError::InvalidTerm)
        } else {
            self.observing(s.term).stage_outcome(s)
        }
    }

    /// The node after the delivery of a placement.
    pub open spec fn staging(self, s: SnapshotModel) -> ReplicaModel {
        if s.term < self.observed_term || s.term == 0 {
            self
        } else {
            let m = self.observing(s.term);
            if m.stage_outcome(s) == Ok::<StageOutcome, ModelError>(StageOutcome::Staged) {
                ReplicaModel {
                    fence: None,
                    staged: Some(
                        StagedModel {
                            snapshot: s,
                            assigned: shards_of(s.assignments, m.node_id),
                            acknowledged: Set::empty(),
                        },
                    ),
                    ..m
                }
            } else {
                m
            }
        }
    }

    /// What comes of an acknowledgement.
    pub open spec fn ack_result(self, generation: Generation, shard: ShardId) -> Result<
        AckOutcome,
        ModelError,
    > {
        match self.staged {
            None => Err(ModelError::NoStagedPlacement),
            Some(s) => if generation != s.snapshot.generation {
                Err(
                    ModelError::AckGenerationMismatch {
                        staged: s.snapshot.generation,
                        provided: generation,
                    },
                )
            } else if !s.assigned.contains(shard) {
                Err(ModelError::ShardNotAssigned(shard))
            } else if s.acknowledged.contains(shard) {
                Ok(AckOutcome::Replay)
            } else {
                Ok(AckOutcome::Recorded)
            },
        }
    }

    /// The node after an acknowledgement.
    pub open spec fn acking(self, generation: Generation, shard: ShardId) -> ReplicaModel {
        if self.ack_result(generation, shard) is Ok {
            ReplicaModel {
                staged: Some(
                    StagedModel {
                        acknowledged: self.staged->0.acknowledged.insert(shard),
                        ..self.staged->0
                    },
                ),
                ..self
            }
        } else {
            self
        }
    }

    /// Whether a generation can be activated: it is staged under the term observed, and every
    /// shard it gives to this node is acknowledged.
    pub open spec fn can_activate(self, generation: Generation) -> bool {
        &&& self.staged is Some
        &&& self.staged->0.snapshot.generation == generation
        &&& self.staged->0.snapshot.term == self.observed_term
        &&& self.staged->0.assigned.subset_of(self.staged->0.acknowledged)
    }

    /// The node after an attempt to activate a generation.
    pub open spec fn activating(self, generation: Generation) -> ReplicaModel {
        if self.can_activate(generation) {
            ReplicaModel {
                active: Some(ActiveModel { generation, shards: self.staged->0.assigned }),
                staged: None,
                fence: None,
                ..self
            }
        } else {
            self
        }
    }

    /// Why write authority is refused.
    pub open spec fn fence_fault(self, fence: WriteFence) -> Option<ModelError> {
        if fence.term != self.observed_term {
            Some(ModelError::StaleTerm { observed: self.observed_term, provided: fence.term })
        } else {
            match self.active {
                None => Some(ModelError::NoActivePlacement),
                Some(a) => if a.generation != fence.generation {
                    Some(
                        ModelError::AuthorityMismatch {
                            active: a.generation,
                            requested: fence.generation,
                        },
                    )
                } else {
                    None
                },
            }
        }
    }

    /// The node after an attempt to install write authority.
    pub open spec fn fencing(self, fence: WriteFence) -> ReplicaModel {
        if self.fence_fault(fence) is None {
            ReplicaModel { fence: Some(fence), ..self }
        } else {
            self
        }
    }

    /// The node after a restart: what it acknowledged and its write authority are lost.
    pub open spec fn restarting(self) -> ReplicaModel {
        ReplicaModel {
            fence: None,
            staged: match self.staged {
                Some(s) => Some(StagedModel { acknowledged: Set::empty(), ..s }),
                None => None,
            },
            ..self
        }
    }

    /// Whether a write is admitted: under the exact authority installed, for a shard that is
    /// active, and not while a newer generation is rolled out.
    pub open spec fn admits(self, fence: WriteFence, shard: ShardId) -> bool {
        &&& self.fence == Some(fence)
        &&& self.staged is None
        &&& self.active is Some
        &&& self.active->0.generation == fence.generation
        &&& self.active->0.shards.contains(shard)
    }
}

/// What came of the delivery of a placement.
#[derive(Clone, Copy, Debug, PartialEq, Eq, Structural)]
pub enum StageOutcome {
    Staged,
    DuplicateStaged,
    DuplicateActive,
}

/// What came of an acknowledgement.
#[derive(Clone, Copy, Debug, PartialEq, Eq, Structural)]
pub enum AckOutcome {
    Recorded,
    Replay,
}

#[derive(Clone, Debug, PartialEq, Eq)]
struct ActivePlacement {
    generation: Generation,
    assigned_shards: BTreeSet<ShardId>,
}

impl View for ActivePlacement {
    type V = ActiveModel;

    closed spec fn view(&self) -> ActiveModel {
        ActiveModel { generation: self.generation, shards: self.assigned_shards@ }
    }
}

#[derive(Clone, Debug, PartialEq, Eq)]
struct StagedPlacement {
    snapshot: PlacementSnapshot,
    assigned_shards: BTreeSet<ShardId>,
    acknowledged_shards: BTreeSet<ShardId>,
}

impl View for StagedPlacement {
    type V = StagedModel;

    closed spec fn view(&self) -> StagedModel {
        StagedModel {
            snapshot: self.snapshot@,
            assigned: self.assigned_shards@,
            acknowledged: self.acknowledged_shards@,
        }
    }
}

/// A node's side: where placements are staged, activated and fenced.
#[derive(Clone, Debug, PartialEq, Eq)]
pub struct NodeReplica {
    node_id: NodeId,
    observed_term: Term,
    active: Option<ActivePlacement>,
    staged: Option<StagedPlacement>,
    write_fence: Option<WriteFence>,
}

impl View for NodeReplica {
    type V = ReplicaModel;

    closed spec fn view(&self) -> ReplicaModel {
        ReplicaModel {
            node_id: self.node_id,
            observed_term: self.observed_term,
            active: match self.active {
                Some(a) => Some(a@),
                None => None,
            },
            staged: match self.staged {
                Some(s) => Some(s@),
                None => None,
            },
            fence: self.write_fence,
        }
    }
}

impl NodeReplica {
    /// A node that has seen nothing.
    pub fn new(node_id: NodeId) -> (r: Self)
        ensures
            r@ == (ReplicaModel {
                node_id,
                observed_term: 0,
                active: None,
                staged: None,
                fence: None,
            }),
            r@.valid(),
    {
        NodeReplica { node_id, observed_term: 0, active: None, staged: None, write_fence: None }
    }

    /// The newest term seen.
    pub fn observed_term(&self) -> (r: Term)
        ensures
            r == self@.observed_term,
    {
        self.observed_term
    }

    /// The generation that is active.
    pub fn active_generation(&self) -> (r: Option<Generation>)
        ensures
            r == match self@.active {
                Some(a) => Some(a.generation),
                None => None,
            },
    {
        match &self.active {
            Some(a) => Some(a.generation),
            None => None,
        }
    }

    /// The shards that are active.
    pub fn active_shards(&self) -> (r: BTreeSet<ShardId>)
        ensures
            r@ == match self@.active {
                Some(a) => a.shards,
                None => Set::empty(),
            },
    {
        match &self.active {
            Some(a) => a.assigned_shards.clone(),
            None => BTreeSet::new(),
        }
    }

    /// The generation that is staged.
    pub fn staged_generation(&self) -> (r: Option<Generation>)
        ensures
            r == match self@.staged {
                Some(s) => Some(s.snapshot.generation),
                None => None,
            },
    {
        match &self.staged {
            Some(s) => Some(s.snapshot.generation),
            None => None,
        }
    }

    /// The staged shards that are acknowledged.
    pub fn acknowledged_shards(&self) -> (r: BTreeSet<ShardId>)
        ensures
            r@ == match self@.staged {
                Some(s) => s.acknowledged,
                None => Set::empty(),
            },
    {
        match &self.staged {
            Some(s) => s.acknowledged_shards.clone(),
            None => BTreeSet::new(),
        }
    }

    /// The write authority installed.
    pub fn current_write_fence(&self) -> (r: Option<WriteFence>)
        ensures
            r == self@.fence,
    {
        self.write_fence
    }

    /// Observes a term.
    pub fn observe_term(&mut self, term: Term) -> (r: Result<(), ModelError>)
        ensures
            match old(self)@.term_fault(term) {
                None => r == Ok::<(), ModelError>(()) && final(self)@ == old(self)@.observing(term),
                Some(e) => r == Err::<(), ModelError>(e) && final(self)@ == old(self)@,
            },
    {
        if term == 0 {
            return Err(ModelError::InvalidTerm);
        }
        if term < self.observed_term {
            return Err(ModelError::StaleTerm { observed: self.observed_term, provided: term });
        }
        if term > self.observed_term {
            self.observed_term = term;
            self.write_fence = None;
            let outdated = match &self.staged {
                Some(s) => s.snapshot.term < term,
                None => false,
            };
            if outdated {
                self.staged = None;
            }
        }
        Ok(())
    }

    /// Takes delivery of a placement.
    pub fn stage(&mut self, snapshot: PlacementSnapshot) -> (r: Result<StageOutcome, ModelError>)
        ensures
            r == old(self)@.stage_result(snapshot@),
            final(self)@ == old(self)@.staging(snapshot@),
    {
        if snapshot.term < self.observed_term {
            return Err(
                ModelError::StaleTerm { observed: self.observed_term, provided: snapshot.term },
            );
        }
        match self.observe_term(snapshot.term) {
            Ok(_) => {},
            Err(e) => {
                return Err(e);
            },
        }
        let assigned_shards = snapshot.shards_for(self.node_id);
        if let Some(active) = &self.active {
            if snapshot.generation < active.generation {
                return Err(
                    ModelError::StaleGeneration {
                        active: active.generation,
                        provided: snapshot.generation,
                    },
                );
            }
            if snapshot.generation == active.generation {
                if within(&assigned_shards, &active.assigned_shards) && within(
                    &active.assigned_shards,
                    &assigned_shards,
                ) {
                    assert(assigned_shards@ =~= active.assigned_shards@);
                    return Ok(StageOutcome::DuplicateActive);
                }
                return Err(ModelError::ConflictingGeneration(snapshot.generation));
            }
        }
        if let Some(staged) = &self.staged {
            if snapshot.generation < staged.snapshot.generation {
                return Err(
                    ModelError::StaleGeneration {
                        active: staged.snapshot.generation,
                        provided: snapshot.generation,
                    },
                );
            }
            if snapshot.generation == staged.snapshot.generation {
                if snapshot.same(&staged.snapshot) {
                    return Ok(StageOutcome::DuplicateStaged);
                }
                return Err(ModelError::ConflictingGeneration(snapshot.generation));
            }
        }
        self.write_fence = None;
        self.staged = Some(
            StagedPlacement { snapshot, assigned_shards, acknowledged_shards: BTreeSet::new() },
        );
        Ok(StageOutcome::Staged)
    }

    /// Records that a staged shard is ready.
    pub fn acknowledge_shard(&mut self, generation: Generation, shard: ShardId) -> (r: Result<
        AckOutcome,
        ModelError,
    >)
        ensures
            r == old(self)@.ack_result(generation, shard),
            final(self)@ == old(self)@.acking(generation, shard),
    {
        proof {
            keys_are_ordered();
        }
        match self.staged.take() {
            None => Err(ModelError::NoStagedPlacement),
            Some(mut staged) => {
                let r = if generation != staged.snapshot.generation {
                    Err(
                        ModelError::AckGenerationMismatch {
                            staged: staged.snapshot.generation,
                            provided: generation,
                        },
                    )
                } else if !staged.assigned_shards.contains(&shard) {
                    Err(ModelError::ShardNotAssigned(shard))
                } else if staged.acknowledged_shards.insert(shard) {
                    Ok(AckOutcome::Recorded)
                } else {
                    Ok(AckOutcome::Replay)
                };
                self.staged = Some(staged);
                r
            },
        }
    }

    /// Activates a staged generation as a whole.
    pub fn activate(&mut self, generation: Generation) -> (r: Result<(), ModelError>)
        ensures
            final(self)@ == old(self)@.activating(generation),
            r is Ok == old(self)@.can_activate(generation),
            match r {
                Ok(_) => true,
                Err(e) => match old(self)@.staged {
                    None => e == ModelError::NoStagedPlacement,
                    Some(s) => if generation != s.snapshot.generation {
                        e == (ModelError::AckGenerationMismatch {
                            staged: s.snapshot.generation,
                            provided: generation,
                        })
                    } else if s.snapshot.term != old(self)@.observed_term {
                        e == (ModelError::StaleTerm {
                            observed: old(self)@.observed_term,
                            provided: s.snapshot.term,
                        })
                    } else {
                        e matches ModelError::PartialActivation(missing) && ascends(missing@)
                            && missing@.to_set() == s.assigned.difference(s.acknowledged)
                    },
                },
            },
    {
        let staged = match &self.staged {
            Some(s) => s,
            None => {
                return Err(ModelError::NoStagedPlacement);
            },
        };
        if generation != staged.snapshot.generation {
            return Err(
                ModelError::AckGenerationMismatch {
                    staged: staged.snapshot.generation,
                    provided: generation,
                },
            );
        }
        if staged.snapshot.term != self.observed_term {
            return Err(
                ModelError::StaleTerm {
                    observed: self.observed_term,
                    provided: staged.snapshot.term,
                },
            );
        }
        let missing = difference(&staged.assigned_shards, &staged.acknowledged_shards);
        if !missing.is_empty() {
            assert(missing@.to_set().contains(missing@[0]));
            return Err(ModelError::PartialActivation(missing));
        }
        assert(staged@.assigned.subset_of(staged@.acknowledged)) by {
            assert forall|x: ShardId| staged@.assigned.contains(
                x,
            ) implies staged@.acknowledged.contains(x) by {
                if !staged@.acknowledged.contains(x) {
                    assert(missing@.to_set().contains(x));
                }
            }
        }
        let active = ActivePlacement {
            generation,
            assigned_shards: staged.assigned_shards.clone(),
        };
        self.active = Some(active);
        self.staged = None;
        self.write_fence = None;
        Ok(())
    }

    /// Installs write authority for what is active.
    pub fn install_write_fence(&mut self, fence: WriteFence) -> (r: Result<(), ModelError>)
        ensures
            final(self)@ == old(self)@.fencing(fence),
            r == match old(self)@.fence_fault(fence) {
                None => Ok::<(), ModelError>(()),
                Some(e) => Err::<(), ModelError>(e),
            },
    {
        if fence.term != self.observed_term {
            return Err(
                ModelError::StaleTerm { observed: self.observed_term, provided: fence.term },
            );
        }
        match &self.active {
            None => {
                return Err(ModelError::NoActivePlacement);
            },
            Some(active) => {
                if active.generation != fence.generation {
                    return Err(
                        ModelError::AuthorityMismatch {
                            active: active.generation,
                            requested: fence.generation,
                        },
                    );
                }
            },
        }
        self.write_fence = Some(fence);
        Ok(())
    }

    /// Whether a write is admitted.
    pub fn accepts_write(&self, fence: WriteFence, shard: ShardId) -> (r: bool)
        ensures
            r == self@.admits(fence, shard),
    {
        proof {
            keys_are_ordered();
        }
        if self.staged.is_some() {
            return false;
        }
        match (&self.write_fence, &self.active) {
            (Some(installed), Some(active)) => *installed == fence && active.generation
                == fence.generation && active.assigned_shards.contains(&shard),
            _ => false,
        }
    }

    /// Restarts: what is active and staged is durable, acknowledgements and write authority are
    /// not. Losing them costs availability and nothing else.
    pub fn restart(&mut self)
        ensures
            final(self)@ == old(self)@.restarting(),
    {
        self.write_fence = None;
        if let Some(mut staged) = self.staged.take() {
            staged.acknowledged_shards.clear();
            self.staged = Some(staged);
        }
    }
}

} // verus!
