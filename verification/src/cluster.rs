//! Replicated commands and the control-plane state machine they drive.

use crate::membership::Membership;
use crate::model::{AssignmentModel, NodeModel, ScalePlan, ShardAssignment, ShardId};
use crate::placement::{Placement, PlacementModel};
use crate::text::texts_contain;
use vstd::prelude::*;

verus! {

/// A durable, replicated state mutation. Liveness heartbeats are soft state and are not commands.
#[derive(Debug)]
pub enum Command {
    /// Install or replace a shard's authoritative placement.
    AssignShard(ShardAssignment),
    /// Set the desired scale plan.
    SetScalePlan(ScalePlan),
    /// Finalize removal of a fully evacuated, drained node.
    ForgetNode(String),
}

/// The value of a [`Command`].
#[verifier::ext_equal]
pub enum CommandModel {
    AssignShard(AssignmentModel),
    SetScalePlan(ScalePlan),
    ForgetNode(Seq<char>),
}

impl DeepView for Command {
    type V = CommandModel;

    open spec fn deep_view(&self) -> CommandModel {
        match self {
            Command::AssignShard(a) => CommandModel::AssignShard(a.deep_view()),
            Command::SetScalePlan(p) => CommandModel::SetScalePlan(*p),
            Command::ForgetNode(n) => CommandModel::ForgetNode(n@),
        }
    }
}

impl Clone for Command {
    fn clone(&self) -> (r: Self)
        ensures
            r.deep_view() == self.deep_view(),
    {
        match self {
            Command::AssignShard(a) => Command::AssignShard(a.clone()),
            Command::SetScalePlan(p) => Command::SetScalePlan(*p),
            Command::ForgetNode(n) => Command::ForgetNode(n.clone()),
        }
    }
}

/// The value of the state that commands drive: the known nodes, the placement map and the scale
/// plan.
#[verifier::ext_equal]
pub struct StateModel {
    pub nodes: Map<Seq<char>, NodeModel>,
    pub placement: PlacementModel,
    pub plan: ScalePlan,
}

/// Whether any assignment names a node as a replica.
pub open spec fn still_assigned(
    assignments: Map<ShardId, AssignmentModel>,
    node_id: Seq<char>,
) -> bool {
    exists|k: ShardId| #[trigger]
        assignments.dom().contains(k) && assignments[k].replicas.contains(node_id)
}

impl StateModel {
    /// The state after a committed command.
    pub open spec fn applied(self, command: CommandModel) -> StateModel {
        match command {
            CommandModel::AssignShard(a) => StateModel {
                placement: self.placement.assigned(a),
                ..self
            },
            CommandModel::SetScalePlan(p) => StateModel { plan: p, ..self },
            CommandModel::ForgetNode(n) => if still_assigned(self.placement.assignments, n) {
                self
            } else {
                StateModel { nodes: self.nodes.remove(n), ..self }
            },
        }
    }

    /// The state after a sequence of committed commands.
    pub open spec fn applied_all(self, commands: Seq<CommandModel>) -> StateModel
        decreases commands.len(),
    {
        if commands.len() == 0 {
            self
        } else {
            self.applied_all(commands.drop_last()).applied(commands.last())
        }
    }
}

fn is_still_assigned(placement: &Placement, node_id: &str) -> (r: bool)
    ensures
        r == still_assigned(placement@.assignments, node_id@),
{
    let list = placement.snapshot();
    let ghost model = list.deep_view();
    let mut i: usize = 0;
    while i < list.len()
        invariant
            i <= list.len(),
            model == list.deep_view(),
            crate::placement::lists_assignments(placement@.assignments, model),
            forall|k: int| 0 <= k < i ==> !(#[trigger] model[k]).replicas.contains(node_id@),
        decreases list.len() - i,
    {
        assert(model[i as int] == list@[i as int].deep_view());
        if texts_contain(list[i].replicas.as_slice(), node_id) {
            assert(placement@.assignments.dom().contains(model[i as int].shard_id));
            return true;
        }
        i += 1;
    }
    proof {
        if still_assigned(placement@.assignments, node_id@) {
            let k = choose|k: ShardId| #[trigger]
                placement@.assignments.dom().contains(k)
                    && placement@.assignments[k].replicas.contains(node_id@);
            let x = choose|x: int| 0 <= x < model.len() && (#[trigger] model[x]).shard_id == k;
            assert(model[x].shard_id == k);
            assert(placement@.assignments[model[x].shard_id] == model[x]);
        }
    }
    false
}

/// Applies one committed command. This is the single definition of how the replicated log changes
/// the state. A node that any assignment still names is never forgotten, which makes stale or
/// repeated removals harmless.
pub fn apply_command(
    membership: &mut Membership,
    placement: &mut Placement,
    plan: &mut ScalePlan,
    command: Command,
)
    ensures
        final(membership).config() == old(membership).config(),
        (StateModel {
            nodes: final(membership).nodes(),
            placement: final(placement)@,
            plan: *final(plan),
        }) == (StateModel {
            nodes: old(membership).nodes(),
            placement: old(placement)@,
            plan: *old(plan),
        }).applied(command.deep_view()),
{
    match command {
        Command::AssignShard(assignment) => placement.assign(assignment),
        Command::SetScalePlan(new_plan) => {
            *plan = new_plan;
        },
        Command::ForgetNode(node_id) => {
            if !is_still_assigned(placement, node_id.as_str()) {
                let _ = membership.forget(&node_id);
            }
        },
    }
}

/// The seam through which state is changed.
pub trait ControlPlane {
    /// Whether this member can safely take part. A replicated member becomes unavailable after a
    /// durability failure.
    fn is_available(&self) -> bool;

    /// Whether this member leads. Only the leader reconciles.
    fn is_leader(&self) -> bool;

    /// The leader's address, for forwarding from a follower.
    fn leader_addr(&self) -> Option<String>;

    /// Proposes a durable mutation; says whether it was applied here.
    fn propose(&mut self, command: Command) -> bool;
}

/// A single-member control plane: always leader, applies synchronously.
pub struct LocalControlPlane {
    pub membership: Membership,
    pub placement: Placement,
    pub plan: ScalePlan,
}

impl View for LocalControlPlane {
    type V = StateModel;

    open spec fn view(&self) -> StateModel {
        StateModel {
            nodes: self.membership.nodes(),
            placement: self.placement@,
            plan: self.plan,
        }
    }
}

impl LocalControlPlane {
    /// A control plane over the given state.
    pub fn new(membership: Membership, placement: Placement, plan: ScalePlan) -> (r: Self)
        ensures
            r.membership == membership,
            r.placement == placement,
            r.plan == plan,
    {
        LocalControlPlane { membership, placement, plan }
    }
}

impl ControlPlane for LocalControlPlane {
    fn is_available(&self) -> (r: bool)
        ensures
            r,
    {
        true
    }

    fn is_leader(&self) -> (r: bool)
        ensures
            r,
    {
        true
    }

    fn leader_addr(&self) -> (r: Option<String>)
        ensures
            r is None,
    {
        None
    }

    fn propose(&mut self, command: Command) -> (r: bool)
        ensures
            r,
            final(self)@ == old(self)@.applied(command.deep_view()),
            final(self).membership.config() == old(self).membership.config(),
    {
        apply_command(&mut self.membership, &mut self.placement, &mut self.plan, command);
        true
    }
}

/// A node that an assignment names stays known, whatever command is applied.
pub proof fn assigned_nodes_are_never_forgotten(
    s: StateModel,
    command: CommandModel,
    node_id: Seq<char>,
)
    requires
        s.nodes.dom().contains(node_id),
        still_assigned(s.placement.assignments, node_id),
    ensures
        s.applied(command).nodes.dom().contains(node_id),
        s.applied(command).nodes[node_id] == s.nodes[node_id],
{
}

/// A repeated removal is harmless: applying it twice is applying it once.
pub proof fn repeated_removal_is_harmless(s: StateModel, node_id: Seq<char>)
    ensures
        s.applied(CommandModel::ForgetNode(node_id)).applied(CommandModel::ForgetNode(node_id))
            == s.applied(CommandModel::ForgetNode(node_id)),
{
    assert(s.nodes.remove(node_id).remove(node_id) =~= s.nodes.remove(node_id));
}

/// Only an assignment changes the placement map and its version; no command changes a policy.
pub proof fn commands_touch_what_they_name(s: StateModel, command: CommandModel)
    ensures
        command !is AssignShard ==> s.applied(command).placement == s.placement,
        command !is SetScalePlan ==> s.applied(command).plan == s.plan,
        command !is ForgetNode ==> s.applied(command).nodes == s.nodes,
        s.applied(command).placement.policies == s.placement.policies,
        s.applied(command).placement.shard_count == s.placement.shard_count,
{
}


/// A command does what it names: an assignment becomes the shard's, a scale plan becomes the plan,
/// and a removed node is no longer known unless an assignment still names it as a replica.
pub proof fn commands_take_effect(s: StateModel, command: CommandModel, other: Seq<char>)
    ensures
        ({
            let t = s.applied(command);
            match command {
                CommandModel::AssignShard(a) => {
                    &&& t.placement.assignments == s.placement.assignments.insert(a.shard_id, a)
                    &&& t.placement.generation != s.placement.generation
                },
                CommandModel::SetScalePlan(p) => t.plan == p,
                CommandModel::ForgetNode(n) => {
                    let needed = exists|k: ShardId, i: int|
                        #![trigger s.placement.assignments[k].replicas[i]]
                        s.placement.assignments.dom().contains(k) && 0 <= i
                            < s.placement.assignments[k].replicas.len()
                            && s.placement.assignments[k].replicas[i] == n;
                    &&& t.nodes.dom().contains(n) <==> needed && s.nodes.dom().contains(n)
                    &&& other != n ==> t.nodes.dom().contains(other) == s.nodes.dom().contains(
                        other,
                    )
                    &&& t.nodes.dom().contains(other) ==> t.nodes[other] == s.nodes[other]
                },
            }
        }),
{
    if let CommandModel::ForgetNode(n) = command {
        if still_assigned(s.placement.assignments, n) {
            let k = choose|k: ShardId| #[trigger]
                s.placement.assignments.dom().contains(k)
                    && s.placement.assignments[k].replicas.contains(n);
            let r = s.placement.assignments[k].replicas;
            let i = choose|i: int| 0 <= i < r.len() && r[i] == n;
            assert(s.placement.assignments[k].replicas[i] == n);
        }
        if exists|k: ShardId, i: int|
            #![trigger s.placement.assignments[k].replicas[i]]
            s.placement.assignments.dom().contains(k) && 0 <= i
                < s.placement.assignments[k].replicas.len()
                && s.placement.assignments[k].replicas[i] == n {
            let (k, i) = choose|k: ShardId, i: int|
                #![trigger s.placement.assignments[k].replicas[i]]
                s.placement.assignments.dom().contains(k) && 0 <= i
                    < s.placement.assignments[k].replicas.len()
                    && s.placement.assignments[k].replicas[i] == n;
            assert(s.placement.assignments.dom().contains(k));
            assert(s.placement.assignments[k].replicas.contains(n));
        }
    }
}

/// Commands take effect one after the other, in order: applying some and then others is applying
/// all of them, and one more is one more step.
pub proof fn commands_apply_in_order(
    s: StateModel,
    first: Seq<CommandModel>,
    next: Seq<CommandModel>,
    last: CommandModel,
)
    ensures
        s.applied_all(Seq::empty()) == s,
        s.applied_all(first.push(last)) == s.applied_all(first).applied(last),
        s.applied_all(first + next) == s.applied_all(first).applied_all(next),
    decreases next.len(),
{
    assert(first.push(last).drop_last() =~= first);
    if next.len() == 0 {
        assert(first + next =~= first);
    } else {
        commands_apply_in_order(s, first, next.drop_last(), last);
        assert((first + next).drop_last() =~= first + next.drop_last());
    }
}

} // verus!
