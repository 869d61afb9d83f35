//! What holds of every sequence of publications, deliveries, restarts and failovers.

use crate::composition;
use crate::composition::{
    AckOutcome, ActiveModel, BrainRole, Generation, ModelError, NodeId, PublisherModel,
    ReplicaModel, ShardId, SnapshotModel, StageOutcome, StagedModel, Term, WriteFence,
};
use vstd::prelude::*;

verus! {

/// Something that happens at a publisher.
pub enum PublisherEvent {
    Lead(Term),
    StepDown(Term),
    Publish(Map<ShardId, Seq<NodeId>>),
    Commit(SnapshotModel),
}

/// The publisher after an event, refused or not.
pub open spec fn publisher_after(p: PublisherModel, e: PublisherEvent) -> PublisherModel {
    match e {
        PublisherEvent::Lead(t) => if t > p.term {
            p.entered(BrainRole::Leader, t)
        } else {
            p
        },
        PublisherEvent::StepDown(t) => if t >= p.term {
            p.entered(BrainRole::Follower, t)
        } else {
            p
        },
        PublisherEvent::Publish(plan) => if p.publication_fault(plan) is None {
            p.publishing(p.next_snapshot(plan))
        } else {
            p
        },
        PublisherEvent::Commit(s) => if p.commit_fault(s) is None {
            PublisherModel { committed: s.generation, ..p }
        } else {
            p
        },
    }
}

/// What every publisher keeps: it has a term, has published at least what is committed, and what
/// it published in its term stands under its own generation, up to the last one and without a gap
/// above the committed one.
pub open spec fn publisher_valid(p: PublisherModel) -> bool {
    &&& p.term > 0
    &&& p.committed <= p.last_published
    &&& forall|g: Generation| #[trigger]
        p.published.dom().contains(g) ==> 0 < g <= p.last_published && p.published[g].generation
            == g && p.published[g].term == p.term
    &&& forall|g: Generation|
        p.committed < g <= p.last_published ==> #[trigger] p.published.dom().contains(g)
}

/// Every event keeps a publisher valid.
pub proof fn publishers_stay_valid(p: PublisherModel, e: PublisherEvent)
    requires
        publisher_valid(p),
    ensures
        publisher_valid(publisher_after(p, e)),
{
}

/// A publisher as it is made is valid.
pub proof fn new_publishers_are_valid(role: BrainRole, term: Term, committed: Generation)
    requires
        term > 0,
    ensures
        publisher_valid(
            PublisherModel {
                role,
                term,
                last_published: committed,
                committed,
                published: Map::empty(),
            },
        ),
{
}

/// Only a leader publishes, commits or issues write authority: a follower refuses all of it and
/// stays as it is.
pub proof fn only_leaders_publish(
    p: PublisherModel,
    plan: Map<ShardId, Seq<NodeId>>,
    s: SnapshotModel,
    g: Generation,
)
    requires
        p.role == BrainRole::Follower,
    ensures
        p.publication_fault(plan) == Some(ModelError::NotLeader),
        p.commit_fault(s) == Some(ModelError::NotLeader),
        p.fence_fault(g) == Some(ModelError::NotLeader),
        publisher_after(p, PublisherEvent::Publish(plan)) == p,
        publisher_after(p, PublisherEvent::Commit(s)) == p,
{
}

/// Generations are committed one after the other: no event moves the committed generation by more
/// than one or back, and one that moves it commits exactly what this leader published in its term.
pub proof fn commits_are_sequential(p: PublisherModel, e: PublisherEvent)
    requires
        publisher_valid(p),
    ensures
        publisher_after(p, e).committed == p.committed || (e matches PublisherEvent::Commit(s)
            && p.role == BrainRole::Leader && s.generation == p.committed + 1
            && publisher_after(p, e).committed == s.generation && s.term == p.term
            && p.published.dom().contains(s.generation) && p.published[s.generation] == s),
        publisher_after(p, e).term >= p.term,
{
}

/// Within a term a generation is published once: a later publication takes a higher one, and
/// leaves what was published before as it was.
pub proof fn publications_are_sequential(
    p: PublisherModel,
    plan: Map<ShardId, Seq<NodeId>>,
    g: Generation,
)
    requires
        publisher_valid(p),
        p.publication_fault(plan) is None,
        p.published.dom().contains(g),
    ensures
        ({
            let q = publisher_after(p, PublisherEvent::Publish(plan));
            &&& q.last_published == p.last_published + 1
            &&& q.published.dom().contains(g)
            &&& q.published[g] == p.published[g]
        }),
{
}

/// Write authority is issued for the committed generation alone, in the leader's own term.
pub proof fn fences_follow_commits(p: PublisherModel, g: Generation)
    ensures
        p.fence_fault(g) is None <==> p.role == BrainRole::Leader && g == p.committed && g > 0,
{
}

/// Every placement that is published is canonical: some shard is placed, and every shard has a
/// replica.
pub proof fn published_placements_are_canonical(
    p: PublisherModel,
    plan: Map<ShardId, Seq<NodeId>>,
    shard: ShardId,
)
    requires
        p.publication_fault(plan) is None,
    ensures
        ({
            let s = p.next_snapshot(plan);
            &&& s.term > 0
            &&& s.generation > 0
            &&& !s.assignments.dom().is_empty()
            &&& s.assignments.dom().contains(shard) ==> exists|n: NodeId|
                s.assignments[shard].contains(n)
            &&& s.assignments.dom().contains(shard) ==> plan[shard].no_duplicates()
        }),
{
    let s = p.next_snapshot(plan);
    assert(s.assignments.dom() =~= plan.dom());
    assert(!s.assignments.dom().is_empty()) by {
        let x = choose|x: ShardId| plan.dom().contains(x);
        assert(s.assignments.dom().contains(x));
    }
    if s.assignments.dom().contains(shard) {
        if composition::replica_fault(shard, plan[shard]) is Some {
            some_shard_is_first_faulty(plan, shard);
        }
        assert(s.assignments[shard].contains(plan[shard][0]));
        nothing_repeats(plan[shard]);
    }
}

proof fn some_shard_is_first_faulty(plan: Map<ShardId, Seq<NodeId>>, shard: ShardId)
    requires
        plan.dom().contains(shard),
        composition::replica_fault(shard, plan[shard]) is Some,
    ensures
        exists|s: ShardId| composition::first_faulty(plan, s),
    decreases shard,
{
    if !composition::first_faulty(plan, shard) {
        let s = choose|s: ShardId| #[trigger]
            plan.dom().contains(s) && s < shard && composition::replica_fault(s, plan[s]) is Some;
        some_shard_is_first_faulty(plan, s);
    }
}

proof fn nothing_repeats(nodes: Seq<NodeId>)
    requires
        composition::first_repeat(nodes) is None,
    ensures
        nodes.no_duplicates(),
    decreases nodes.len(),
{
    if nodes.len() > 0 {
        nothing_repeats(nodes.drop_last());
        assert forall|i: int, j: int|
            0 <= i < nodes.len() && 0 <= j < nodes.len() && i != j implies nodes[i] != nodes[j] by {
            let rest = nodes.drop_last();
            assert(i < rest.len() ==> rest[i] == nodes[i]);
            assert(j < rest.len() ==> rest[j] == nodes[j]);
            if i == rest.len() {
                assert(rest.contains(rest[j]));
            } else if j == rest.len() {
                assert(rest.contains(rest[i]));
            }
        }
    }
}

/// Something that happens at a node.
pub enum NodeEvent {
    Observe(Term),
    Stage(SnapshotModel),
    Acknowledge(Generation, ShardId),
    Activate(Generation),
    Fence(WriteFence),
    Restart,
}

/// The node after an event, refused or not.
pub open spec fn node_after(m: ReplicaModel, e: NodeEvent) -> ReplicaModel {
    match e {
        NodeEvent::Observe(t) => if m.term_fault(t) is None {
            m.observing(t)
        } else {
            m
        },
        NodeEvent::Stage(s) => m.staging(s),
        NodeEvent::Acknowledge(g, s) => m.acking(g, s),
        NodeEvent::Activate(g) => m.activating(g),
        NodeEvent::Fence(f) => m.fencing(f),
        NodeEvent::Restart => m.restarting(),
    }
}

/// Every event keeps a node valid.
pub proof fn nodes_stay_valid(m: ReplicaModel, e: NodeEvent)
    requires
        m.valid(),
    ensures
        node_after(m, e).valid(),
{
}

/// No event takes a node back: the term it has observed and the generation it has active never
/// fall, and within a term neither does the newest generation it holds.
pub proof fn nothing_rolls_back(m: ReplicaModel, e: NodeEvent)
    requires
        m.valid(),
    ensures
        ({
            let n = node_after(m, e);
            &&& n.observed_term >= m.observed_term
            &&& m.active is Some ==> n.active is Some && n.active->0.generation
                >= m.active->0.generation
            &&& n.observed_term == m.observed_term ==> newest(n) >= newest(m)
        }),
{
}

/// The newest generation that a node holds, staged or active.
pub open spec fn newest(m: ReplicaModel) -> int {
    match (m.staged, m.active) {
        (Some(s), _) => s.snapshot.generation as int,
        (None, Some(a)) => a.generation as int,
        (None, None) => -1,
    }
}

/// A delayed placement or acknowledgement is refused and changes nothing in the term it came in.
pub proof fn delayed_deliveries_are_refused(
    m: ReplicaModel,
    s: SnapshotModel,
    g: Generation,
    shard: ShardId,
)
    requires
        m.valid(),
        m.staged is Some,
        s.term == m.observed_term,
        s.generation < m.staged->0.snapshot.generation,
        m.active is None || s.generation != m.active->0.generation,
        g != m.staged->0.snapshot.generation,
    ensures
        m.stage_result(s) is Err,
        m.staging(s) == m,
        m.ack_result(g, shard) is Err,
        m.acking(g, shard) == m,
{
}

/// No generation is activated in part: what is active changes only by activating what was staged,
/// once every shard that it gives to the node is acknowledged, and then it is exactly those.
pub proof fn activation_is_complete(m: ReplicaModel, e: NodeEvent)
    requires
        m.valid(),
    ensures
        node_after(m, e).active == m.active || (e matches NodeEvent::Activate(g) && m.staged is Some
            && m.staged->0.snapshot.generation == g && m.staged->0.acknowledged
            == m.staged->0.assigned && node_after(m, e).active == Some(
            ActiveModel {
                generation: g,
                shards: composition::shards_of(m.staged->0.snapshot.assignments, m.node_id),
            },
        )),
{
    if let NodeEvent::Activate(g) = e {
        if m.can_activate(g) {
            assert(m.staged->0.acknowledged =~= m.staged->0.assigned);
        }
    }
}

/// A rollout fails closed: staging a newer generation takes write authority away, and while it is
/// staged no write is admitted at all.
pub proof fn rollouts_fail_closed(
    m: ReplicaModel,
    s: SnapshotModel,
    fence: WriteFence,
    shard: ShardId,
)
    ensures
        m.stage_result(s) == Ok::<StageOutcome, ModelError>(StageOutcome::Staged) ==> m.staging(
            s,
        ).fence is None && m.staging(s).staged is Some,
        m.staged is Some ==> !m.admits(fence, shard),
{
}

/// A newer term fences an older one: once it is observed nothing is authorized, and from then on
/// no event makes the node admit a write under an older term.
pub proof fn terms_fence_writes(
    m: ReplicaModel,
    t: Term,
    e: NodeEvent,
    fence: WriteFence,
    shard: ShardId,
)
    requires
        m.valid(),
    ensures
        t > m.observed_term ==> node_after(m, NodeEvent::Observe(t)).fence is None && node_after(
            m,
            NodeEvent::Observe(t),
        ).observed_term == t,
        fence.term < m.observed_term ==> !m.admits(fence, shard) && !node_after(m, e).admits(
            fence,
            shard,
        ),
{
}

/// A restart keeps what is active and what is staged, and loses acknowledgements and authority: a
/// staged generation with anything in it has to be acknowledged again.
pub proof fn restarts_are_safe(
    m: ReplicaModel,
    g: Generation,
    fence: WriteFence,
    shard: ShardId,
)
    requires
        m.valid(),
    ensures
        ({
            let n = m.restarting();
            &&& n.active == m.active
            &&& n.observed_term == m.observed_term
            &&& n.staged is Some == m.staged is Some
            &&& m.staged is Some ==> n.staged->0.snapshot == m.staged->0.snapshot
                && n.staged->0.assigned == m.staged->0.assigned && n.staged->0.acknowledged
                == Set::<ShardId>::empty()
            &&& !n.admits(fence, shard)
            &&& m.staged is Some && m.staged->0.assigned.contains(shard) ==> !n.can_activate(g)
        }),
{
}

/// A node that a placement leaves out activates it at once, with no shard, and then admits no
/// write under any authority.
pub proof fn removal_is_safe(m: ReplicaModel, s: SnapshotModel, fence: WriteFence, shard: ShardId)
    requires
        m.stage_result(s) == Ok::<StageOutcome, ModelError>(StageOutcome::Staged),
        forall|x: ShardId| #[trigger]
            s.assignments.dom().contains(x) ==> !s.assignments[x].contains(m.node_id),
    ensures
        ({
            let n = m.staging(s).activating(s.generation);
            &&& m.staging(s).can_activate(s.generation)
            &&& n.active == Some(
                ActiveModel { generation: s.generation, shards: Set::<ShardId>::empty() },
            )
            &&& !n.admits(fence, shard)
            &&& !n.fencing(fence).admits(fence, shard)
        }),
{
    assert(composition::shards_of(s.assignments, m.node_id) =~= Set::<ShardId>::empty());
}

/// Deliveries may be repeated: the second delivery of a placement, and the second acknowledgement
/// of a shard, succeed and change nothing.
pub proof fn replays_change_nothing(
    m: ReplicaModel,
    s: SnapshotModel,
    g: Generation,
    shard: ShardId,
)
    requires
        m.valid(),
    ensures
        m.stage_result(s) is Ok ==> m.staging(s).stage_result(s) is Ok && m.staging(s).staging(s)
            == m.staging(s),
        m.ack_result(g, shard) is Ok ==> m.acking(g, shard).ack_result(g, shard) == Ok::<
            AckOutcome,
            ModelError,
        >(AckOutcome::Replay) && m.acking(g, shard).acking(g, shard) == m.acking(g, shard),
{
    if m.ack_result(g, shard) is Ok {
        let n = m.acking(g, shard);
        assert(n.acking(g, shard).staged->0.acknowledged =~= n.staged->0.acknowledged);
    }
}

/// Other contents under the generation that is staged or active fail, and leave both as they were.
pub proof fn conflicts_fail_closed(m: ReplicaModel, s: SnapshotModel)
    requires
        m.valid(),
        s.term == m.observed_term,
        s.term > 0,
        (m.staged is Some && s.generation == m.staged->0.snapshot.generation && s
            != m.staged->0.snapshot) || (m.active is Some && s.generation
            == m.active->0.generation && composition::shards_of(s.assignments, m.node_id)
            != m.active->0.shards),
    ensures
        m.stage_result(s) == Err::<StageOutcome, ModelError>(
            ModelError::ConflictingGeneration(s.generation),
        ),
        m.staging(s) == m,
{
}

/// The order of acknowledgements does not matter.
pub proof fn acknowledgements_commute(m: ReplicaModel, g: Generation, a: ShardId, b: ShardId)
    ensures
        m.acking(g, a).acking(g, b) == m.acking(g, b).acking(g, a),
{
    let x = m.acking(g, a).acking(g, b);
    let y = m.acking(g, b).acking(g, a);
    if x.staged is Some && y.staged is Some {
        assert(x.staged->0.acknowledged =~= y.staged->0.acknowledged);
        assert(x.staged->0 =~= y.staged->0);
    }
}

/// Acknowledges shards one after the other.
pub open spec fn acking_all(m: ReplicaModel, g: Generation, shards: Seq<ShardId>) -> ReplicaModel
    decreases shards.len(),
{
    if shards.len() == 0 {
        m
    } else {
        acking_all(m, g, shards.drop_last()).acking(g, shards.last())
    }
}

proof fn acknowledged_by(m: ReplicaModel, g: Generation, shards: Seq<ShardId>)
    requires
        m.staged is Some,
        m.staged->0.snapshot.generation == g,
        forall|i: int| 0 <= i < shards.len() ==> m.staged->0.assigned.contains(#[trigger] shards[i]),
    ensures
        acking_all(m, g, shards) == (ReplicaModel {
            staged: Some(
                StagedModel {
                    acknowledged: m.staged->0.acknowledged.union(shards.to_set()),
                    ..m.staged->0
                },
            ),
            ..m
        }),
    decreases shards.len(),
{
    if shards.len() == 0 {
        assert(m.staged->0.acknowledged.union(shards.to_set()) =~= m.staged->0.acknowledged);
    } else {
        let rest = shards.drop_last();
        assert forall|i: int| 0 <= i < rest.len() implies m.staged->0.assigned.contains(
            #[trigger] rest[i],
        ) by {
            assert(rest[i] == shards[i]);
        }
        acknowledged_by(m, g, rest);
        assert(m.staged->0.assigned.contains(shards[shards.len() - 1]));
        assert(m.staged->0.acknowledged.union(rest.to_set()).insert(shards.last())
            =~= m.staged->0.acknowledged.union(shards.to_set())) by {
            assert forall|x: ShardId| shards.contains(x) == (rest.contains(x) || x
                == shards.last()) by {
                if shards.contains(x) {
                    let k = shards.index_of(x);
                    assert(k < rest.len() ==> rest[k] == x);
                }
                if rest.contains(x) {
                    assert(shards[rest.index_of(x)] == x);
                }
                if x == shards.last() {
                    assert(shards[shards.len() - 1] == x);
                }
            }
        }
    }
}

/// A rollout that runs through ends with the node serving exactly its part: once a leader has
/// published and committed a placement and the node has staged it, acknowledged its shards in any
/// order, activated it and installed the leader's authority, the node admits writes under that
/// authority for the shards the placement gives it, and for no other.
pub proof fn completed_rollouts_serve_their_shards(
    p: PublisherModel,
    m: ReplicaModel,
    s: SnapshotModel,
    acks: Seq<ShardId>,
    shard: ShardId,
)
    requires
        publisher_valid(p),
        p.role == BrainRole::Leader,
        p.commit_fault(s) is None,
        s.generation > 0,
        m.stage_result(s) == Ok::<StageOutcome, ModelError>(StageOutcome::Staged),
        acks.to_set() == composition::shards_of(s.assignments, m.node_id),
    ensures
        ({
            let q = publisher_after(p, PublisherEvent::Commit(s));
            let fence = WriteFence { term: q.term, generation: s.generation };
            let n = acking_all(m.staging(s), s.generation, acks).activating(s.generation);
            &&& q.fence_fault(s.generation) is None
            &&& n.fence_fault(fence) is None
            &&& n.fencing(fence).admits(fence, shard) == composition::shards_of(
                s.assignments,
                m.node_id,
            ).contains(shard)
        }),
{
    let staged = m.staging(s);
    assert forall|i: int| 0 <= i < acks.len() implies staged.staged->0.assigned.contains(
        #[trigger] acks[i],
    ) by {
        assert(acks.to_set().contains(acks[i]));
    }
    acknowledged_by(staged, s.generation, acks);
}

/// A write that a node admits is under authority it installed in the term it now observes, for the
/// generation it has active and a shard of it.
pub proof fn admitted_writes_are_authorized(m: ReplicaModel, fence: WriteFence, shard: ShardId)
    requires
        m.valid(),
        m.admits(fence, shard),
    ensures
        m.fence == Some(fence),
        fence.term == m.observed_term,
        m.active is Some,
        m.active->0.generation == fence.generation,
        m.active->0.shards.contains(shard),
{
}


/// Whether a plan places something, and every shard of it on at least one node, named once.
pub open spec fn is_placeable(plan: Map<ShardId, Seq<NodeId>>) -> bool {
    &&& exists|s: ShardId| #[trigger] plan.dom().contains(s)
    &&& forall|s: ShardId| #[trigger]
        plan.dom().contains(s) ==> plan[s].len() > 0 && plan[s].no_duplicates()
}

/// Whether a node is the first that a list names again: everything before its second mention
/// differs.
pub open spec fn is_first_repeat(nodes: Seq<NodeId>, node: NodeId) -> bool {
    exists|j: int|
        0 <= j < nodes.len() && #[trigger] nodes[j] == node && nodes.take(j).contains(node)
            && nodes.take(j).no_duplicates()
}

proof fn repeats_are_found(nodes: Seq<NodeId>)
    ensures
        composition::first_repeat(nodes) is None <==> nodes.no_duplicates(),
        composition::first_repeat(nodes) matches Some(n) ==> is_first_repeat(nodes, n),
    decreases nodes.len(),
{
    if nodes.len() > 0 {
        let rest = nodes.drop_last();
        let last = nodes.len() - 1;
        repeats_are_found(rest);
        assert(rest =~= nodes.take(last));
        if composition::first_repeat(nodes) is None {
            nothing_repeats(nodes);
        } else if let Some(n) = composition::first_repeat(rest) {
            let j = choose|j: int|
                0 <= j < rest.len() && #[trigger] rest[j] == n && rest.take(j).contains(n)
                    && rest.take(j).no_duplicates();
            assert(rest.take(j) =~= nodes.take(j));
            assert(nodes[j] == n);
            let i = choose|i: int| 0 <= i < j && rest.take(j)[i] == n;
            assert(nodes[i] == nodes[j]);
        } else {
            let i = choose|i: int| 0 <= i < rest.len() && rest[i] == nodes.last();
            assert(nodes[i] == nodes[last]);
        }
    }
}

/// A placement is made exactly of a term, a generation and a plan that can be placed, and a refusal
/// says which of them is missing: of the shards it names the first that is faulty, and of its nodes
/// the first that comes again.
pub proof fn placements_are_refused_for_cause(
    term: Term,
    generation: Generation,
    plan: Map<ShardId, Seq<NodeId>>,
)
    ensures
        ({
            let fault = composition::placement_fault(term, generation, plan);
            &&& fault is None <==> term > 0 && generation > 0 && is_placeable(plan)
            &&& match fault {
                None => true,
                Some(ModelError::InvalidTerm) => term == 0,
                Some(ModelError::InvalidGeneration) => term > 0 && generation == 0,
                Some(ModelError::EmptyPlacement) => term > 0 && generation > 0 && forall|
                    s: ShardId,
                | !#[trigger] plan.dom().contains(s),
                Some(ModelError::EmptyReplicaSet(shard)) => plan.dom().contains(shard)
                    && plan[shard].len() == 0 && forall|s: ShardId| #[trigger]
                    plan.dom().contains(s) && s < shard ==> plan[s].len() > 0
                        && plan[s].no_duplicates(),
                Some(ModelError::DuplicateReplica { shard, node }) => plan.dom().contains(shard)
                    && is_first_repeat(plan[shard], node) && forall|s: ShardId| #[trigger]
                    plan.dom().contains(s) && s < shard ==> plan[s].len() > 0
                        && plan[s].no_duplicates(),
                _ => false,
            }
        }),
{
    let fault = composition::placement_fault(term, generation, plan);
    assert forall|s: ShardId| #[trigger] plan.dom().contains(s) implies (
    composition::replica_fault(s, plan[s]) is None <==> plan[s].len() > 0
        && plan[s].no_duplicates()) by {
        repeats_are_found(plan[s]);
    }
    if exists|s: ShardId| composition::first_faulty(plan, s) {
        let s = choose|s: ShardId| composition::first_faulty(plan, s);
        repeats_are_found(plan[s]);
        assert(plan.dom().contains(s));
    }
    if term > 0 && generation > 0 && fault is None {
        assert forall|s: ShardId| #[trigger] plan.dom().contains(s) implies plan[s].len() > 0
            && plan[s].no_duplicates() by {
            if composition::replica_fault(s, plan[s]) is Some {
                some_shard_is_first_faulty(plan, s);
            }
        }
        if forall|s: ShardId| !#[trigger] plan.dom().contains(s) {
            assert(plan.dom() =~= Set::empty());
        }
    }
    if is_placeable(plan) {
        let s = choose|s: ShardId| #[trigger] plan.dom().contains(s);
        assert(!plan.dom().is_empty());
    }
}

/// A leader publishes every plan that can be placed, as it is, under its term and the generation
/// behind the last it published; and only the generations run out.
pub proof fn leaders_publish_what_can_be_placed(
    p: PublisherModel,
    plan: Map<ShardId, Seq<NodeId>>,
    shard: ShardId,
    node: NodeId,
)
    requires
        publisher_valid(p),
    ensures
        p.publication_fault(plan) is None <==> p.role == BrainRole::Leader && p.last_published
            < u64::MAX && is_placeable(plan),
        p.publication_fault(plan) is None ==> {
            let q = publisher_after(p, PublisherEvent::Publish(plan));
            let g = (p.last_published + 1) as u64;
            &&& q.last_published == p.last_published + 1
            &&& q.published.dom().contains(g)
            &&& q.published[g].generation == g
            &&& q.published[g].term == p.term
            &&& q.published[g].assignments.dom().contains(shard) == plan.dom().contains(shard)
            &&& plan.dom().contains(shard) ==> q.published[g].assignments[shard].contains(node)
                == plan[shard].contains(node)
            &&& q.committed == p.committed && q.role == p.role && q.term == p.term
        },
        p.publication_fault(plan) is Some ==> publisher_after(p, PublisherEvent::Publish(plan))
            == p,
{
    placements_are_refused_for_cause(p.term, (p.last_published + 1) as u64, plan);
}

/// A leader commits what it published next in its term, and what is committed already once more;
/// nothing else.
pub proof fn leaders_commit_what_they_published(p: PublisherModel, s: SnapshotModel)
    requires
        publisher_valid(p),
    ensures
        p.commit_fault(s) is None <==> p.role == BrainRole::Leader && s.term == p.term && (
        s.generation == p.committed || (s.generation == p.committed + 1
            && p.published.dom().contains(s.generation) && p.published[s.generation] == s)),
        p.commit_fault(s) is None ==> publisher_after(p, PublisherEvent::Commit(s)).committed
            == s.generation,
        p.role == BrainRole::Leader && s.term != p.term ==> p.commit_fault(s) == Some(
            ModelError::StaleTerm { observed: p.term, provided: s.term },
        ),
{
}

/// A new term is entered without what an older one had published beyond the committed generation: a
/// later one to lead in, and one that is not over to follow in.
pub proof fn terms_start_from_what_is_committed(p: PublisherModel, t: Term)
    ensures
        ({
            let lead = publisher_after(p, PublisherEvent::Lead(t));
            let follow = publisher_after(p, PublisherEvent::StepDown(t));
            &&& t > p.term ==> lead.role == BrainRole::Leader && lead.term == t
                && lead.last_published == p.committed && lead.committed == p.committed
                && lead.published == Map::<Generation, SnapshotModel>::empty()
            &&& t <= p.term ==> lead == p
            &&& t >= p.term ==> follow.role == BrainRole::Follower && follow.term == t
                && follow.last_published == p.committed && follow.committed == p.committed
                && follow.published == Map::<Generation, SnapshotModel>::empty()
            &&& t < p.term ==> follow == p
        }),
{
}

/// Whether a placement is newer than all that a node holds under its term.
pub open spec fn is_newer(m: ReplicaModel, s: SnapshotModel) -> bool {
    &&& m.active matches Some(a) ==> s.generation > a.generation
    &&& m.staged matches Some(t) ==> s.generation > t.snapshot.generation || s.term
        > m.observed_term
}

/// Whether a placement gives exactly these shards to a node.
pub open spec fn gives_exactly(s: SnapshotModel, node: NodeId, shards: Set<ShardId>) -> bool {
    forall|x: ShardId| #[trigger]
        shards.contains(x) <==> s.assignments.dom().contains(x) && s.assignments[x].contains(node)
}

/// A node stages a placement exactly when its term is not over and it is newer than all that the
/// node holds; it answers a repeated delivery as one, and refuses everything else.
pub proof fn newer_placements_are_staged(m: ReplicaModel, s: SnapshotModel)
    requires
        m.valid(),
    ensures
        ({
            let r = m.stage_result(s);
            let current = s.term > 0 && s.term >= m.observed_term;
            &&& r == Ok::<StageOutcome, ModelError>(StageOutcome::Staged) <==> current && is_newer(
                m,
                s,
            )
            &&& r == Ok::<StageOutcome, ModelError>(StageOutcome::DuplicateActive) <==> current
                && m.active is Some && s.generation == m.active->0.generation && gives_exactly(
                s,
                m.node_id,
                m.active->0.shards,
            )
            &&& r == Ok::<StageOutcome, ModelError>(StageOutcome::DuplicateStaged) <==> current
                && m.staged is Some && m.staged->0.snapshot == s && s.term == m.observed_term
            &&& s.term < m.observed_term ==> r == Err::<StageOutcome, ModelError>(
                ModelError::StaleTerm { observed: m.observed_term, provided: s.term },
            )
            &&& current && m.active is Some && s.generation < m.active->0.generation ==> r == Err::<
                StageOutcome,
                ModelError,
            >(
                ModelError::StaleGeneration {
                    active: m.active->0.generation,
                    provided: s.generation,
                },
            )
        }),
{
    let mine = composition::shards_of(s.assignments, m.node_id);
    if m.active is Some {
        assert(gives_exactly(s, m.node_id, m.active->0.shards) <==> mine =~= m.active->0.shards);
    }
}

/// A staged placement takes the place of an older staged one: the shards that it gives to the node
/// have to be acknowledged, what is active stays, and authority is gone.
pub proof fn staging_starts_over(m: ReplicaModel, s: SnapshotModel, shard: ShardId)
    requires
        m.valid(),
        m.stage_result(s) == Ok::<StageOutcome, ModelError>(StageOutcome::Staged),
    ensures
        ({
            let n = m.staging(s);
            &&& n.observed_term == s.term
            &&& n.active == m.active
            &&& n.node_id == m.node_id
            &&& n.fence is None
            &&& n.staged is Some && n.staged->0.snapshot == s
            &&& n.staged->0.assigned.contains(shard) <==> s.assignments.dom().contains(shard)
                && s.assignments[shard].contains(m.node_id)
            &&& !n.staged->0.acknowledged.contains(shard)
        }),
{
}

/// An acknowledgement counts exactly for the staged generation and a shard that it gives to the
/// node, and adds that shard.
pub proof fn acknowledgements_count_for_what_is_staged(
    m: ReplicaModel,
    g: Generation,
    shard: ShardId,
)
    ensures
        ({
            let r = m.ack_result(g, shard);
            let n = m.acking(g, shard);
            let counts = m.staged is Some && g == m.staged->0.snapshot.generation
                && m.staged->0.assigned.contains(shard);
            &&& r is Ok <==> counts
            &&& counts ==> (r == Ok::<AckOutcome, ModelError>(AckOutcome::Replay)
                <==> m.staged->0.acknowledged.contains(shard))
            &&& counts ==> n == (ReplicaModel {
                staged: Some(
                    StagedModel {
                        acknowledged: m.staged->0.acknowledged.insert(shard),
                        ..m.staged->0
                    },
                ),
                ..m
            })
            &&& !counts ==> n == m
            &&& m.staged is None ==> r == Err::<AckOutcome, ModelError>(
                ModelError::NoStagedPlacement,
            )
            &&& m.staged is Some && g != m.staged->0.snapshot.generation ==> r == Err::<
                AckOutcome,
                ModelError,
            >(
                ModelError::AckGenerationMismatch {
                    staged: m.staged->0.snapshot.generation,
                    provided: g,
                },
            )
            &&& m.staged is Some && g == m.staged->0.snapshot.generation
                && !m.staged->0.assigned.contains(shard) ==> r == Err::<AckOutcome, ModelError>(
                ModelError::ShardNotAssigned(shard),
            )
        }),
{
}

/// A generation is activated exactly when it is the one staged, and every shard that it gives to the
/// node is acknowledged.
pub proof fn acknowledged_generations_are_activated(m: ReplicaModel, g: Generation)
    requires
        m.valid(),
    ensures
        m.can_activate(g) <==> m.staged is Some && m.staged->0.snapshot.generation == g && forall|
            x: ShardId,
        | #[trigger]
            m.staged->0.assigned.contains(x) ==> m.staged->0.acknowledged.contains(x),
        m.can_activate(g) ==> {
            let n = m.activating(g);
            &&& n.active is Some && n.active->0.generation == g && n.active->0.shards
                == m.staged->0.assigned
            &&& n.staged is None
            &&& n.fence is None
            &&& n.observed_term == m.observed_term
        },
        !m.can_activate(g) ==> m.activating(g) == m,
{
}

/// Authority is installed exactly for the term observed and the generation that is active.
pub proof fn authority_is_for_what_is_active(m: ReplicaModel, fence: WriteFence)
    ensures
        m.fence_fault(fence) is None <==> fence.term == m.observed_term && m.active is Some
            && m.active->0.generation == fence.generation,
        m.fence_fault(fence) is None ==> m.fencing(fence) == (ReplicaModel {
            fence: Some(fence),
            ..m
        }),
        m.fence_fault(fence) is Some ==> m.fencing(fence) == m,
        fence.term != m.observed_term ==> m.fence_fault(fence) == Some(
            ModelError::StaleTerm { observed: m.observed_term, provided: fence.term },
        ),
{
}

/// A term is observed unless it is none or over. A newer one takes authority away and what an older
/// leader had staged, and leaves what is active; the same one changes nothing.
pub proof fn newer_terms_are_observed(m: ReplicaModel, t: Term)
    requires
        m.valid(),
    ensures
        m.term_fault(t) is None <==> t > 0 && t >= m.observed_term,
        t > 0 && t < m.observed_term ==> m.term_fault(t) == Some(
            ModelError::StaleTerm { observed: m.observed_term, provided: t },
        ),
        t > m.observed_term ==> m.observing(t) == (ReplicaModel {
            observed_term: t,
            fence: None,
            staged: None,
            ..m
        }),
        t == m.observed_term ==> m.observing(t) == m,
{
}

/// A node with authority for what is active admits writes under it for the shards that are active,
/// while nothing is staged.
pub proof fn authorized_writes_are_admitted(m: ReplicaModel, fence: WriteFence, shard: ShardId)
    requires
        m.valid(),
    ensures
        m.admits(fence, shard) <==> m.fence == Some(fence) && m.staged is None
            && m.active->0.shards.contains(shard),
{
}

} // verus!
