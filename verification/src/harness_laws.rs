//! What the small cluster does and shows, said of its nodes and its one shard.

use crate::cluster::{CommandModel, StateModel};
use crate::harness;
use crate::harness::HarnessModel;
use crate::membership;
use crate::model::{NodeHealth, NodeModel, ShardId};
use crate::scheduler;
use crate::text;
use vstd::prelude::*;

verus! {

/// The four nodes are named by the first letters, and nothing else is one of them.
pub proof fn nodes_are_named_by_letters(n: u64, name: Seq<char>)
    ensures
        1 <= n <= 4 ==> harness::name_of(n).len() == 1 && harness::name_of(n)[0] as int == 96 + n,
        harness::number_of(name) == Some(n) <==> 1 <= n <= 4 && name == harness::name_of(n),
{
    reveal_strlit("a");
    reveal_strlit("b");
    reveal_strlit("c");
    reveal_strlit("d");
    assert("a"@[0] == 'a');
    assert("b"@[0] == 'b');
    assert("c"@[0] == 'c');
    assert("d"@[0] == 'd');
}

/// An observer sees of each node whether it is known, healthy or draining and hosts the shard, and
/// of the shard where it is placed and who should lead it.
pub proof fn observers_see_the_nodes(h: HarnessModel, n: u64)
    requires
        1 <= n <= 4,
    ensures
        ({
            let p = h.projection();
            let id = harness::name_of(n);
            let nodes = h.state.nodes;
            let placed = h.state.placement.assignments;
            let shard: ShardId = 0;
            &&& p.leader == h.leader
            &&& p.known.contains(n) <==> nodes.dom().contains(id)
            &&& p.healthy.contains(n) <==> nodes.dom().contains(id) && nodes[id].health
                == NodeHealth::Healthy
            &&& p.draining.contains(n) <==> nodes.dom().contains(id) && nodes[id].health
                == NodeHealth::Draining
            &&& p.hosted.contains(n) <==> nodes.dom().contains(id)
                && nodes[id].hosted_shards.contains(shard)
            &&& p.placement.contains(n) <==> placed.dom().contains(shard)
                && placed[shard].replicas.contains(id)
            &&& p.preferred_leader == n <==> placed.dom().contains(shard)
                && placed[shard].preferred_leader == Some(id)
            &&& p.generation == h.state.placement.generation
            &&& p.forgotten == h.forgotten
        }),
{
    let id = harness::name_of(n);
    let placed = h.state.placement.assignments;
    assert forall|name: Seq<char>| #[trigger] harness::number_of(name) == Some(n) <==> name
        == id by {
        nodes_are_named_by_letters(n, name);
    }
    assert(harness::number_of(id) == Some(n));
    if placed.dom().contains(0) {
        let replicas = placed[0].replicas;
        if replicas.contains(id) {
            let i = choose|i: int| 0 <= i < replicas.len() && replicas[i] == id;
            assert(harness::number_of(replicas[i]) == Some(n));
        }
        if let Some(l) = placed[0].preferred_leader {
            assert(harness::number_of(l) == Some(n) <==> l == id);
        }
    }
}

proof fn first_leading_is_first(list: Seq<NodeModel>)
    ensures
        match harness::first_leading(list) {
            None => forall|i: int|
                0 <= i < list.len() ==> !leads_the_shard(#[trigger] list[i]),
            Some(id) => exists|i: int|
                0 <= i < list.len() && (#[trigger] list[i]).node_id == id && leads_the_shard(
                    list[i],
                ) && forall|j: int| 0 <= j < i ==> !leads_the_shard(#[trigger] list[j]),
        },
    decreases list.len(),
{
    if list.len() > 0 {
        let rest = list.drop_first();
        first_leading_is_first(rest);
        if leads_the_shard(list[0]) {
            assert(harness::first_leading(list) == Some(list[0].node_id));
        } else {
            match harness::first_leading(rest) {
                None => {
                    assert forall|i: int| 0 <= i < list.len() implies !leads_the_shard(
                        #[trigger] list[i],
                    ) by {
                        if i > 0 {
                            assert(rest[i - 1] == list[i]);
                        }
                    }
                },
                Some(id) => {
                    let i = choose|i: int|
                        0 <= i < rest.len() && (#[trigger] rest[i]).node_id == id
                            && leads_the_shard(rest[i]) && forall|j: int|
                            0 <= j < i ==> !leads_the_shard(#[trigger] rest[j]);
                    assert(list[i + 1] == rest[i]);
                    assert forall|j: int| 0 <= j < i + 1 implies !leads_the_shard(
                        #[trigger] list[j],
                    ) by {
                        if j > 0 {
                            assert(rest[j - 1] == list[j]);
                        }
                    }
                },
            }
        }
    }
}

/// Whether a node is healthy and says that it leads the shard.
pub open spec fn leads_the_shard(node: NodeModel) -> bool {
    let shard: ShardId = 0;
    node.health == NodeHealth::Healthy && node.leading_shards.contains(shard)
}

/// The leader that an observer sees is the first of the healthy nodes that say they lead the shard.
pub proof fn observers_see_who_leads(h: HarnessModel, n: u64)
    requires
        1 <= n <= 4,
        membership::lists(h.state.nodes, membership::listing(h.state.nodes)),
    ensures
        ({
            let id = harness::name_of(n);
            let nodes = h.state.nodes;
            h.projection().observed_leader == n <==> nodes.dom().contains(id) && leads_the_shard(
                nodes[id],
            ) && forall|other: Seq<char>| #[trigger]
                nodes.dom().contains(other) && leads_the_shard(nodes[other]) ==> other == id
                    || text::text_lt(id, other)
        }),
{
    let id = harness::name_of(n);
    let nodes = h.state.nodes;
    let list = membership::listing(nodes);
    first_leading_is_first(list);
    let found = harness::first_leading(list);
    if let Some(l) = found {
        nodes_are_named_by_letters(n, l);
        let i = choose|i: int|
            0 <= i < list.len() && (#[trigger] list[i]).node_id == l && leads_the_shard(list[i])
                && forall|j: int| 0 <= j < i ==> !leads_the_shard(#[trigger] list[j]);
        assert forall|other: Seq<char>| #[trigger]
            nodes.dom().contains(other) && leads_the_shard(nodes[other]) implies other == l
            || text::text_lt(l, other) by {
            let j = choose|j: int| 0 <= j < list.len() && (#[trigger] list[j]).node_id == other;
            assert(nodes[list[j].node_id] == list[j]);
        }
        assert(nodes.dom().contains(l) && leads_the_shard(nodes[l]));
        if nodes.dom().contains(id) && leads_the_shard(nodes[id]) && id != l {
            assert(text::text_lt(l, id));
            if text::text_lt(id, l) {
                text::text_lt_transitive(l, id, l);
                text::text_lt_irreflexive(l);
            }
        }
    } else if nodes.dom().contains(id) {
        let j = choose|j: int| 0 <= j < list.len() && (#[trigger] list[j]).node_id == id;
        assert(nodes[list[j].node_id] == list[j]);
    }
}

/// A follower's proposals change nothing, and a leader's take effect one after the other.
pub proof fn leaders_apply_what_is_proposed(h: HarnessModel, commands: Seq<CommandModel>)
    ensures
        !h.leader ==> h.proposing_all(commands) == h,
        h.leader ==> h.proposing_all(commands).state == h.state.applied_all(commands)
            && h.proposing_all(commands).leader,
        h.proposing_all(commands).config == h.config,
    decreases commands.len(),
{
    if commands.len() > 0 {
        leaders_apply_what_is_proposed(h, commands.drop_last());
    }
}

/// A node counts as forgotten once a leader's removal has taken it out, and stays so.
pub proof fn removed_nodes_are_forgotten(h: HarnessModel, command: CommandModel, n: u64)
    ensures
        ({
            let t = h.proposing(command);
            t.forgotten.contains(n) <==> h.forgotten.contains(n) || (h.leader && 1 <= n <= 4
                && command == CommandModel::ForgetNode(harness::name_of(n))
                && !t.state.nodes.dom().contains(harness::name_of(n)))
        }),
{
    if let CommandModel::ForgetNode(id) = command {
        nodes_are_named_by_letters(n, id);
    }
}

proof fn actions_differ()
    ensures
        "init"@ != "idle"@,
        "init"@.len() == 4,
        "idle"@.len() == 4,
        "become_follower"@.len() == 15,
        "become_leader"@.len() == 13,
        "become_leader"@ != "begin_drain_a"@,
        "lose_a_from_soft_membership"@.len() == 27,
        "heartbeat_a"@.len() == 11,
        "heartbeat_a"@ != "mark_a_dead"@,
        "add_d"@.len() == 5,
        "mark_a_dead"@.len() == 11,
        "begin_drain_a"@.len() == 13,
        "evacuate_a"@.len() == 10,
        "prepare_cold_start"@.len() == 18,
        "restore_snapshot_bcd"@.len() == 20,
        "restore_snapshot_bcd"@ != "reconcile_cold_adopt"@,
        "restore_snapshot_bcd"@ != "reconcile_idempotent"@,
        "reconcile_follower_hold"@.len() == 23,
        "reconcile_incomplete_hold"@.len() == 25,
        "reconcile_degraded_hold"@.len() == 23,
        "reconcile_cold_adopt"@.len() == 20,
        "reconcile_replace_dead_a"@.len() == 24,
        "reconcile_replace_and_forget_drained_a"@.len() == 38,
        "reconcile_forget_drained_a_after_placement"@.len() == 42,
        "reconcile_idempotent"@.len() == 20,
        "attempt_forget_a_rejected"@.len() == 25,
        "attempt_forget_a_rejected"@ != "reconcile_incomplete_hold"@,
{
    reveal_strlit("init");
    reveal_strlit("idle");
    reveal_strlit("become_follower");
    reveal_strlit("become_leader");
    reveal_strlit("lose_a_from_soft_membership");
    reveal_strlit("heartbeat_a");
    reveal_strlit("add_d");
    reveal_strlit("mark_a_dead");
    reveal_strlit("begin_drain_a");
    reveal_strlit("evacuate_a");
    reveal_strlit("prepare_cold_start");
    reveal_strlit("restore_snapshot_bcd");
    reveal_strlit("reconcile_follower_hold");
    reveal_strlit("reconcile_incomplete_hold");
    reveal_strlit("reconcile_degraded_hold");
    reveal_strlit("reconcile_cold_adopt");
    reveal_strlit("reconcile_replace_dead_a");
    reveal_strlit("reconcile_replace_and_forget_drained_a");
    reveal_strlit("reconcile_forget_drained_a_after_placement");
    reveal_strlit("reconcile_idempotent");
    reveal_strlit("attempt_forget_a_rejected");
    assert("init"@[1] == 'n' && "idle"@[1] == 'd');
    assert("become_leader"@[2] == 'c' && "begin_drain_a"@[2] == 'g');
    assert("heartbeat_a"@[0] == 'h' && "mark_a_dead"@[0] == 'm');
    assert("restore_snapshot_bcd"@[2] == 's' && "reconcile_cold_adopt"@[2] == 'c'
        && "reconcile_idempotent"@[2] == 'c');
    assert("attempt_forget_a_rejected"@[0] == 'a' && "reconcile_incomplete_hold"@[0] == 'r');
}

/// Whether a cluster differs from another in its nodes at most.
pub open spec fn same_but_nodes(h: HarnessModel, t: HarnessModel) -> bool {
    t == (HarnessModel { state: StateModel { nodes: t.state.nodes, ..h.state }, ..h })
}

/// Every action does what its name says, and touches nothing else.
pub proof fn actions_do_what_they_say(h: HarnessModel)
    ensures
        h.acting("init"@) == h,
        h.acting("idle"@) == h,
        h.acting("become_follower"@) == (HarnessModel { leader: false, ..h }),
        h.acting("become_leader"@) == (HarnessModel { leader: true, ..h }),
        ({
            let t = h.acting("lose_a_from_soft_membership"@);
            same_but_nodes(h, t) && t.state.nodes == h.state.nodes.remove("a"@)
        }),
        ({
            let t = h.acting("begin_drain_a"@);
            &&& same_but_nodes(h, t)
            &&& !h.state.nodes.dom().contains("a"@) ==> t == h
            &&& h.state.nodes.dom().contains("a"@) ==> t.state.nodes == h.state.nodes.insert(
                "a"@,
                NodeModel { health: NodeHealth::Draining, ..h.state.nodes["a"@] },
            )
        }),
        ({
            let t = h.acting("heartbeat_a"@);
            let shard: ShardId = 0;
            &&& same_but_nodes(h, t)
            &&& t.state.nodes.dom().contains("a"@)
            &&& t.state.nodes["a"@].hosted_shards == seq![shard]
            &&& t.state.nodes["a"@].leading_shards == seq![shard]
            &&& forall|id: Seq<char>| #[trigger]
                h.state.nodes.dom().contains(id) && id != "a"@ ==> t.state.nodes.dom().contains(id)
                    && t.state.nodes[id] == h.state.nodes[id]
        }),
        ({
            let t = h.acting("add_d"@);
            &&& same_but_nodes(h, t)
            &&& t.state.nodes.dom() == h.state.nodes.dom().insert("d"@)
            &&& t.state.nodes["d"@].hosted_shards.len() == 0
            &&& t.state.nodes["d"@].leading_shards.len() == 0
            &&& !h.state.nodes.dom().contains("d"@) ==> t.state.nodes["d"@].health
                == NodeHealth::Healthy
        }),
        ({
            let t = h.acting("evacuate_a"@);
            &&& same_but_nodes(h, t)
            &&& t.state.nodes.dom() == h.state.nodes.dom().insert("a"@)
            &&& t.state.nodes["a"@].hosted_shards.len() == 0
            &&& t.state.nodes["a"@].leading_shards.len() == 0
        }),
        ({
            let t = h.acting("restore_snapshot_bcd"@);
            &&& t.state.nodes == h.state.nodes && t.state.plan == h.state.plan
            &&& t.leader == h.leader && t.forgotten == h.forgotten
            &&& t.state.placement == h.state.placement.restored(
                seq![harness::assignment_of(2, 3, 4, 2)],
            )
        }),
        ({
            let t = h.acting("prepare_cold_start"@);
            &&& t.state.placement == h.state.placement.restored(Seq::empty())
            &&& t.state.nodes.dom() == h.state.nodes.dom().insert("a"@).insert("b"@).insert("c"@)
            &&& t.state.plan == h.state.plan && t.leader == h.leader && t.forgotten == h.forgotten
            &&& leads_b(t)
        }),
{
    actions_differ();
    reveal_strlit("a");
    reveal_strlit("b");
    reveal_strlit("c");
    assert("a"@[0] == 'a' && "b"@[0] == 'b' && "c"@[0] == 'c');
    let t = h.acting("prepare_cold_start"@);
    assert(t == h.cold());
    assert(t.state.nodes.dom() =~= h.state.nodes.dom().insert("a"@).insert("b"@).insert("c"@));
}

/// Whether the first three nodes all host the shard and the second alone says that it leads it.
pub open spec fn leads_b(t: HarnessModel) -> bool {
    let shard: ShardId = 0;
    &&& t.state.nodes["a"@].hosted_shards == seq![shard]
    &&& t.state.nodes["b"@].hosted_shards == seq![shard]
    &&& t.state.nodes["c"@].hosted_shards == seq![shard]
    &&& t.state.nodes["a"@].leading_shards.len() == 0
    &&& t.state.nodes["b"@].leading_shards == seq![shard]
    &&& t.state.nodes["c"@].leading_shards.len() == 0
}

/// Whether an action is to reconcile.
pub open spec fn is_to_reconcile(action: Seq<char>) -> bool {
    seq![
        "reconcile_follower_hold"@,
        "reconcile_incomplete_hold"@,
        "reconcile_degraded_hold"@,
        "reconcile_cold_adopt"@,
        "reconcile_replace_dead_a"@,
        "reconcile_replace_and_forget_drained_a"@,
        "reconcile_forget_drained_a_after_placement"@,
        "reconcile_idempotent"@,
    ].contains(action)
}

/// Every reconciliation applies what the scheduler decides on the state as it is, at a leader, and
/// nothing at a follower; and it can always be taken.
pub proof fn reconciliations_apply_the_decisions(h: HarnessModel, action: Seq<char>)
    requires
        is_to_reconcile(action),
    ensures
        h.can_act(action),
        h.leader ==> h.acting(action).state == h.state.applied_all(
            scheduler::reconciliation(h.state),
        ),
        !h.leader ==> h.acting(action) == h,
{
    actions_differ();
    leaders_apply_what_is_proposed(h, scheduler::reconciliation(h.state));
    let all = seq![
        "reconcile_follower_hold"@,
        "reconcile_incomplete_hold"@,
        "reconcile_degraded_hold"@,
        "reconcile_cold_adopt"@,
        "reconcile_replace_dead_a"@,
        "reconcile_replace_and_forget_drained_a"@,
        "reconcile_forget_drained_a_after_placement"@,
        "reconcile_idempotent"@,
    ];
    let i = choose|i: int| 0 <= i < all.len() && all[i] == action;
    assert(all[i] == action);
    assert(harness::reconciles(action));
}

/// The first node has to be known to be lost or drained, only a leader takes a removal for
/// evaluation, which then applies, and once the first node is marked dead it is.
pub proof fn actions_need_what_they_act_on(h: HarnessModel)
    ensures
        h.can_act("lose_a_from_soft_membership"@) <==> h.state.nodes.dom().contains("a"@),
        h.can_act("begin_drain_a"@) <==> h.state.nodes.dom().contains("a"@),
        h.can_act("attempt_forget_a_rejected"@) <==> h.leader,
        ({
            let t = h.acting("mark_a_dead"@);
            &&& h.can_act("mark_a_dead"@) ==> t.state.nodes.dom().contains("a"@)
                && t.state.nodes["a"@].health == NodeHealth::Dead
            &&& same_but_nodes(h, t)
        }),
        h.leader ==> h.acting("attempt_forget_a_rejected"@).state == h.state.applied(
            CommandModel::ForgetNode("a"@),
        ),
        h.can_act("add_d"@) && h.can_act("heartbeat_a"@) && h.can_act("evacuate_a"@) && h.can_act(
            "idle"@,
        ) && h.can_act("become_leader"@) && h.can_act("become_follower"@) && h.can_act(
            "prepare_cold_start"@,
        ) && h.can_act("restore_snapshot_bcd"@),
{
    actions_differ();
    let before = harness::in_touch(h.state.nodes, membership::listing(h.state.nodes), 100);
    if h.only_first_dies() {
        assert(membership::newly_dead(before, h.first_silent(), "a"@));
        assert(h.first_silent().dom().contains("a"@));
    }
}

} // verus!
