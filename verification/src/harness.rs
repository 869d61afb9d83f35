//! A small cluster that is driven action by action, and what an observer sees of it.
//!
//! Four nodes, one shard, three replicas: enough for every branch of the scheduler.

use crate::cluster::{apply_command, Command, CommandModel, StateModel};
use crate::decimal;
use crate::decimal::{append_number, append_text};
use crate::membership;
use crate::membership::{Membership, MembershipConfig};
use crate::model::{
    AssignmentModel, HeartbeatReport, NodeHealth, NodeId, NodeInfo, NodeModel, ReportModel,
    ScalePlan, ShardAssignment, ShardId,
};
use crate::oracle::PodLiveness;
use crate::placement::{Placement, PlacementModel};
use crate::scheduler;
use crate::scheduler::reconcile_commands;
use crate::text::text_eq;
use std::collections::BTreeSet;
use vstd::prelude::*;
use vstd::std_specs::cmp::OrdSpec;
use vstd::std_specs::iter::IteratorSpec;

verus! {

/// The one shard.
pub const SHARD: ShardId = 0;

/// The name of a node by its number.
pub open spec fn name_of(n: u64) -> Seq<char> {
    if n == 1 {
        "a"@
    } else if n == 2 {
        "b"@
    } else if n == 3 {
        "c"@
    } else {
        "d"@
    }
}

/// The number of a node by its name.
pub open spec fn number_of(name: Seq<char>) -> Option<u64> {
    if name == "a"@ {
        Some(1)
    } else if name == "b"@ {
        Some(2)
    } else if name == "c"@ {
        Some(3)
    } else if name == "d"@ {
        Some(4)
    } else {
        None
    }
}

/// The name of a node by its number.
pub fn node_id(n: u64) -> (r: NodeId)
    requires
        1 <= n <= 4,
    ensures
        r@ == name_of(n),
{
    if n == 1 {
        "a".to_owned()
    } else if n == 2 {
        "b".to_owned()
    } else if n == 3 {
        "c".to_owned()
    } else {
        "d".to_owned()
    }
}

/// The number of a node by its name.
pub fn node_number(name: &str) -> (r: Option<u64>)
    ensures
        r == number_of(name@),
{
    if text_eq(name, "a") {
        Some(1)
    } else if text_eq(name, "b") {
        Some(2)
    } else if text_eq(name, "c") {
        Some(3)
    } else if text_eq(name, "d") {
        Some(4)
    } else {
        None
    }
}

/// Names and numbers belong together.
pub proof fn names_have_numbers(n: u64)
    requires
        1 <= n <= 4,
    ensures
        number_of(name_of(n)) == Some(n),
{
    reveal_strlit("a");
    reveal_strlit("b");
    reveal_strlit("c");
    reveal_strlit("d");
    assert("a"@[0] == 'a');
    assert("b"@[0] == 'b');
    assert("c"@[0] == 'c');
    assert("d"@[0] == 'd');
}

/// What a node reports: where it is, and whether it hosts and leads the shard.
pub open spec fn report_of(n: u64, hosts: bool, leads: bool) -> ReportModel {
    let id = name_of(n);
    ReportModel {
        address: "10.0.0."@ + decimal::decimal(n as int) + ":8090"@,
        cloud_provider: "cloud-"@ + id,
        region: "region-"@ + id,
        cluster_id: "cluster-"@ + id,
        failure_domain: "domain-"@ + id,
        hosted_shards: if hosts {
            seq![SHARD]
        } else {
            Seq::empty()
        },
        leading_shards: if leads {
            seq![SHARD]
        } else {
            Seq::empty()
        },
        seq: 0,
    }
}

fn joined(prefix: &str, id: &str) -> (r: String)
    ensures
        r@ == prefix@ + id@,
{
    let mut r = prefix.to_owned();
    append_text(&mut r, id);
    r
}

fn shard_list(held: bool) -> (r: Vec<ShardId>)
    ensures
        r@ == if held {
            seq![SHARD]
        } else {
            Seq::<ShardId>::empty()
        },
{
    let mut r: Vec<ShardId> = Vec::new();
    if held {
        r.push(SHARD);
    }
    assert(r@ =~= if held {
        seq![SHARD]
    } else {
        Seq::<ShardId>::empty()
    });
    r
}

/// What a node reports.
pub fn report(n: u64, hosts: bool, leads: bool) -> (r: HeartbeatReport)
    requires
        1 <= n <= 4,
    ensures
        r.deep_view() == report_of(n, hosts, leads),
{
    let id = node_id(n);
    let mut address = "10.0.0.".to_owned();
    append_number(&mut address, n);
    append_text(&mut address, ":8090");
    HeartbeatReport {
        address,
        cloud_provider: joined("cloud-", id.as_str()),
        region: joined("region-", id.as_str()),
        cluster_id: joined("cluster-", id.as_str()),
        failure_domain: joined("domain-", id.as_str()),
        hosted_shards: shard_list(hosts),
        leading_shards: shard_list(leads),
        seq: 0,
    }
}

/// The assignment of the shard to three nodes, led by one of them.
pub open spec fn assignment_of(x: u64, y: u64, z: u64, leader: u64) -> AssignmentModel {
    AssignmentModel {
        shard_id: SHARD,
        replicas: seq![name_of(x), name_of(y), name_of(z)],
        preferred_leader: Some(name_of(leader)),
        preferred_region: None,
        preferred_cloud_provider: None,
    }
}

fn assignment(x: u64, y: u64, z: u64, leader: u64) -> (r: ShardAssignment)
    requires
        1 <= x <= 4,
        1 <= y <= 4,
        1 <= z <= 4,
        1 <= leader <= 4,
    ensures
        r.deep_view() == assignment_of(x, y, z, leader),
{
    let mut replicas: Vec<NodeId> = Vec::new();
    replicas.push(node_id(x));
    replicas.push(node_id(y));
    replicas.push(node_id(z));
    assert(replicas.deep_view() =~= seq![name_of(x), name_of(y), name_of(z)]);
    ShardAssignment {
        shard_id: SHARD,
        replicas,
        preferred_leader: Some(node_id(leader)),
        preferred_region: None,
        preferred_cloud_provider: None,
    }
}

/// The nodes after a report was heard.
pub open spec fn heard(
    nodes: Map<Seq<char>, NodeModel>,
    id: Seq<char>,
    now_ms: u64,
    report: ReportModel,
) -> Map<Seq<char>, NodeModel> {
    let node = if nodes.dom().contains(id) {
        Some(nodes[id])
    } else {
        None
    };
    if membership::outdated(node, report) {
        nodes
    } else {
        nodes.insert(id, membership::reported(node, id, now_ms, report))
    }
}

/// What a node would report to stay as it is.
pub open spec fn report_again(node: NodeModel) -> ReportModel {
    ReportModel {
        address: node.address,
        cloud_provider: node.cloud_provider,
        region: node.region,
        cluster_id: node.cluster_id,
        failure_domain: node.failure_domain,
        hosted_shards: node.hosted_shards,
        leading_shards: node.leading_shards,
        seq: 0,
    }
}

/// Whether a node reports again when the first one falls silent.
pub open spec fn stays_in_touch(node: NodeModel) -> bool {
    node.node_id != "a"@ && node.health == NodeHealth::Healthy
}

/// The nodes once every healthy one but the first has reported again, in the order of a listing.
pub open spec fn in_touch(
    nodes: Map<Seq<char>, NodeModel>,
    list: Seq<NodeModel>,
    now_ms: u64,
) -> Map<Seq<char>, NodeModel>
    decreases list.len(),
{
    if list.len() == 0 {
        nodes
    } else {
        let before = in_touch(nodes, list.drop_last(), now_ms);
        if stays_in_touch(list.last()) {
            heard(before, list.last().node_id, now_ms, report_again(list.last()))
        } else {
            before
        }
    }
}

/// The value of a [`Harness`].
#[verifier::ext_equal]
pub struct HarnessModel {
    pub state: StateModel,
    pub config: MembershipConfig,
    pub leader: bool,
    /// The numbers of the nodes that a committed command removed.
    pub forgotten: Set<u64>,
}

impl HarnessModel {
    /// The cluster to begin with: three nodes that host the shard, led by the first.
    pub open spec fn initial() -> HarnessModel {
        HarnessModel {
            state: StateModel {
                nodes: heard(
                    heard(
                        heard(Map::empty(), "a"@, 0, report_of(1, true, true)),
                        "b"@,
                        0,
                        report_of(2, true, false),
                    ),
                    "c"@,
                    0,
                    report_of(3, true, false),
                ),
                placement: PlacementModel::empty(1).assigned(assignment_of(1, 2, 3, 1)),
                plan: ScalePlan { target_nodes: 3, replication_factor: 3 },
            },
            config: MembershipConfig { suspect_after_ms: 10, dead_after_ms: 20 },
            leader: true,
            forgotten: Set::empty(),
        }
    }

    /// The cluster with other nodes.
    pub open spec fn with_nodes(self, nodes: Map<Seq<char>, NodeModel>) -> HarnessModel {
        HarnessModel { state: StateModel { nodes, ..self.state }, ..self }
    }

    /// The cluster after a proposal: only a leader applies it, and a node that is gone after its
    /// removal counts as forgotten.
    pub open spec fn proposing(self, command: CommandModel) -> HarnessModel {
        if !self.leader {
            self
        } else {
            let state = self.state.applied(command);
            HarnessModel {
                state,
                forgotten: match command {
                    CommandModel::ForgetNode(id) => match number_of(id) {
                        Some(n) => if state.nodes.dom().contains(id) {
                            self.forgotten
                        } else {
                            self.forgotten.insert(n)
                        },
                        None => self.forgotten,
                    },
                    _ => self.forgotten,
                },
                ..self
            }
        }
    }

    /// The cluster after proposals, one after the other.
    pub open spec fn proposing_all(self, commands: Seq<CommandModel>) -> HarnessModel
        decreases commands.len(),
    {
        if commands.len() == 0 {
            self
        } else {
            self.proposing_all(commands.drop_last()).proposing(commands.last())
        }
    }

    /// The nodes after every healthy one but the first has reported and a sweep has judged all.
    pub open spec fn first_silent(self) -> Map<Seq<char>, NodeModel> {
        in_touch(self.state.nodes, membership::listing(self.state.nodes), 100).map_values(
            |n: NodeModel| membership::swept(self.config, n, 100, PodLiveness::Unknown),
        )
    }

    /// Whether the sweep declares the first node dead and no other.
    pub open spec fn only_first_dies(self) -> bool {
        let before = in_touch(self.state.nodes, membership::listing(self.state.nodes), 100);
        forall|id: Seq<char>| #[trigger]
            membership::newly_dead(before, self.first_silent(), id) <==> id == "a"@
    }

    /// The cluster with nothing placed and reports from the first three nodes, led by the second.
    pub open spec fn cold(self) -> HarnessModel {
        HarnessModel {
            state: StateModel {
                nodes: heard(
                    heard(
                        heard(self.state.nodes, "a"@, 1, report_of(1, true, false)),
                        "b"@,
                        1,
                        report_of(2, true, true),
                    ),
                    "c"@,
                    1,
                    report_of(3, true, false),
                ),
                placement: self.state.placement.restored(Seq::empty()),
                ..self.state
            },
            ..self
        }
    }

    /// The cluster after an action.
    pub open spec fn acting(self, action: Seq<char>) -> HarnessModel {
        let nodes = self.state.nodes;
        if action == "init"@ || action == "idle"@ {
            self
        } else if action == "become_follower"@ {
            HarnessModel { leader: false, ..self }
        } else if action == "become_leader"@ {
            HarnessModel { leader: true, ..self }
        } else if action == "lose_a_from_soft_membership"@ {
            self.with_nodes(nodes.remove("a"@))
        } else if action == "heartbeat_a"@ {
            self.with_nodes(heard(nodes, "a"@, 0, report_of(1, true, true)))
        } else if action == "add_d"@ {
            self.with_nodes(heard(nodes, "d"@, 0, report_of(4, false, false)))
        } else if action == "mark_a_dead"@ {
            self.with_nodes(self.first_silent())
        } else if action == "begin_drain_a"@ {
            if nodes.dom().contains("a"@) {
                self.with_nodes(
                    nodes.insert(
                        "a"@,
                        NodeModel { health: NodeHealth::Draining, ..nodes["a"@] },
                    ),
                )
            } else {
                self
            }
        } else if action == "evacuate_a"@ {
            self.with_nodes(heard(nodes, "a"@, 1, report_of(1, false, false)))
        } else if action == "prepare_cold_start"@ {
            self.cold()
        } else if action == "restore_snapshot_bcd"@ {
            HarnessModel {
                state: StateModel {
                    placement: self.state.placement.restored(seq![assignment_of(2, 3, 4, 2)]),
                    ..self.state
                },
                ..self
            }
        } else if reconciles(action) {
            self.proposing_all(scheduler::reconciliation(self.state))
        } else if action == "attempt_forget_a_rejected"@ {
            self.proposing(CommandModel::ForgetNode("a"@))
        } else {
            self
        }
    }

    /// Whether an action can be taken.
    pub open spec fn can_act(self, action: Seq<char>) -> bool {
        let known = self.state.nodes.dom().contains("a"@);
        if action == "init"@ || action == "idle"@ || action == "become_follower"@ || action
            == "become_leader"@ {
            true
        } else if action == "lose_a_from_soft_membership"@ {
            known
        } else if action == "heartbeat_a"@ || action == "add_d"@ {
            true
        } else if action == "mark_a_dead"@ {
            self.only_first_dies()
        } else if action == "begin_drain_a"@ {
            known
        } else if action == "evacuate_a"@ || action == "prepare_cold_start"@ || action
            == "restore_snapshot_bcd"@ || reconciles(action) {
            true
        } else if action == "attempt_forget_a_rejected"@ {
            self.leader
        } else {
            false
        }
    }

    /// Whether a message says why an action could not be taken.
    pub open spec fn complains(self, action: Seq<char>, message: Seq<char>) -> bool {
        if action == "lose_a_from_soft_membership"@ {
            message == "A was not present for soft-membership loss"@
        } else if action == "mark_a_dead"@ {
            exists|dead: Seq<Seq<char>>| #[trigger]
                membership::lists_newly_dead(
                    in_touch(self.state.nodes, membership::listing(self.state.nodes), 100),
                    self.first_silent(),
                    dead,
                ) && message == "expected only A to become dead, got ["@ + quoted_all(dead) + "]"@
        } else if action == "begin_drain_a"@ {
            message == "A was not present for drain"@
        } else if action == "attempt_forget_a_rejected"@ {
            message == "leader did not accept the stale ForgetNode proposal for evaluation"@
        } else {
            message == "unsupported Quint scheduler action "@ + quoted(action)
        }
    }
}

/// Whether an action is one of the reconciliations.
pub open spec fn reconciles(action: Seq<char>) -> bool {
    ||| action == "reconcile_follower_hold"@
    ||| action == "reconcile_incomplete_hold"@
    ||| action == "reconcile_degraded_hold"@
    ||| action == "reconcile_cold_adopt"@
    ||| action == "reconcile_replace_dead_a"@
    ||| action == "reconcile_replace_and_forget_drained_a"@
    ||| action == "reconcile_forget_drained_a_after_placement"@
    ||| action == "reconcile_idempotent"@
}

/// A text as `Debug` shows it: in quotes, with escapes.
pub uninterp spec fn quoted(s: Seq<char>) -> Seq<char>;

/// Shows a text with `<str as std::fmt::Debug>::fmt`, through `format!`. The result is a function
/// of the text alone; how characters are escaped in it is not stated.
#[verifier::external_body]
pub(crate) fn quote(s: &str) -> (r: String)
    ensures
        r@ == quoted(s@),
{
    format!("{:?}", s)
}

/// Texts as `Debug` shows them, with commas between.
pub open spec fn quoted_all(texts: Seq<Seq<char>>) -> Seq<char>
    decreases texts.len(),
{
    if texts.len() == 0 {
        Seq::empty()
    } else if texts.len() == 1 {
        quoted(texts[0])
    } else {
        quoted_all(texts.drop_last()) + ", "@ + quoted(texts.last())
    }
}

fn quote_all(texts: &Vec<String>) -> (r: String)
    ensures
        r@ == quoted_all(texts.deep_view()),
{
    let ghost model = texts.deep_view();
    let mut r = String::new();
    let mut i: usize = 0;
    assert(r@ =~= quoted_all(model.take(0)));
    while i < texts.len()
        invariant
            i <= texts.len(),
            model == texts.deep_view(),
            r@ == quoted_all(model.take(i as int)),
        decreases texts.len() - i,
    {
        let ghost next = model.take(i + 1);
        assert(next.drop_last() =~= model.take(i as int));
        assert(next.last() == texts@[i as int]@);
        let ghost was = r@;
        if i > 0 {
            append_text(&mut r, ", ");
        }
        let q = quote(texts[i].as_str());
        append_text(&mut r, q.as_str());
        if i == 0 {
            assert(was =~= Seq::empty());
            assert(r@ =~= quoted(next[0]));
        }
        i += 1;
    }
    assert(model.take(model.len() as int) =~= model);
    r
}

/// Whether numbers stand in strictly ascending order.
pub open spec fn counts_up(s: Seq<u64>) -> bool {
    forall|i: int, j: int| 0 <= i < j < s.len() ==> s[i] < s[j]
}

/// The order of numbers is a total one, as ordered collections need it.
proof fn numbers_are_ordered()
    ensures
        vstd::laws_cmp::obeys_cmp::<u64>(),
        vstd::laws_cmp::obeys_cmp::<&u64>(),
{
    broadcast use vstd::laws_cmp::group_laws_cmp;

}

/// The members of a set in ascending order.
pub fn numbers_in(set: &BTreeSet<u64>) -> (r: Vec<u64>)
    ensures
        counts_up(r@),
        r@.to_set() == set@,
{
    proof {
        numbers_are_ordered();
    }
    let mut r: Vec<u64> = Vec::new();
    for x in it: set.iter()
        invariant
            r.len() == it.index(),
            forall|k: int| 0 <= k < r.len() ==> r@[k] == *it.seq()[k],
    {
        r.push(*x);
    }
    proof {
        let ghost all = vstd::std_specs::btree::spec_btree_keys_iter(set).remaining();
        assert(r@ =~= all.unref());
        assert(vstd::std_specs::btree::increasing_seq(all));
        assert forall|i: int, j: int| 0 <= i < j < r@.len() implies r@[i] < r@[j] by {
            assert((&all[i]).cmp_spec(&all[j]) is Less);
        }
    }
    r
}

fn within(a: &BTreeSet<u64>, b: &BTreeSet<u64>) -> (r: bool)
    ensures
        r == a@.subset_of(b@),
{
    let members = numbers_in(a);
    let mut i: usize = 0;
    while i < members.len()
        invariant
            i <= members.len(),
            members@.to_set() == a@,
            forall|k: int| 0 <= k < i ==> b@.contains(#[trigger] members@[k]),
        decreases members.len() - i,
    {
        proof {
            numbers_are_ordered();
        }
        if !b.contains(&members[i]) {
            assert(members@.to_set().contains(members@[i as int]));
            return false;
        }
        i += 1;
    }
    assert forall|x: u64| a@.contains(x) implies b@.contains(x) by {
        assert(members@.to_set().contains(x));
        assert(b@.contains(members@[members@.index_of(x)]));
    }
    true
}

fn same_numbers(a: &BTreeSet<u64>, b: &BTreeSet<u64>) -> (r: bool)
    ensures
        r == (a@ == b@),
{
    let r = within(a, b) && within(b, a);
    if r {
        assert(a@ =~= b@);
    }
    r
}

/// Takes a number into a set.
pub fn take_number(set: &mut BTreeSet<u64>, n: u64)
    ensures
        final(set)@ == old(set)@.insert(n),
{
    proof {
        numbers_are_ordered();
    }
    let _ = set.insert(n);
}

/// What an observer sees.
#[verifier::ext_equal]
pub struct ProjectionModel {
    pub leader: bool,
    pub known: Set<u64>,
    pub healthy: Set<u64>,
    pub draining: Set<u64>,
    pub hosted: Set<u64>,
    pub observed_leader: u64,
    pub placement: Set<u64>,
    pub preferred_leader: u64,
    pub generation: u64,
    pub forgotten: Set<u64>,
}

/// What an observer sees.
#[derive(Debug, Clone, PartialEq, Eq)]
pub struct Projection {
    pub leader: bool,
    pub known: BTreeSet<u64>,
    pub healthy: BTreeSet<u64>,
    pub draining: BTreeSet<u64>,
    pub hosted: BTreeSet<u64>,
    pub observed_leader: u64,
    pub placement: BTreeSet<u64>,
    pub preferred_leader: u64,
    pub generation: u64,
    pub forgotten: BTreeSet<u64>,
}

impl View for Projection {
    type V = ProjectionModel;

    open spec fn view(&self) -> ProjectionModel {
        ProjectionModel {
            leader: self.leader,
            known: self.known@,
            healthy: self.healthy@,
            draining: self.draining@,
            hosted: self.hosted@,
            observed_leader: self.observed_leader,
            placement: self.placement@,
            preferred_leader: self.preferred_leader,
            generation: self.generation,
            forgotten: self.forgotten@,
        }
    }
}

impl Projection {
    /// Whether two observers see the same.
    pub fn same(&self, other: &Self) -> (r: bool)
        ensures
            r == (self@ == other@),
    {
        self.leader == other.leader && same_numbers(&self.known, &other.known) && same_numbers(
            &self.healthy,
            &other.healthy,
        ) && same_numbers(&self.draining, &other.draining) && same_numbers(
            &self.hosted,
            &other.hosted,
        ) && self.observed_leader == other.observed_leader && same_numbers(
            &self.placement,
            &other.placement,
        ) && self.preferred_leader == other.preferred_leader && self.generation
            == other.generation && same_numbers(&self.forgotten, &other.forgotten)
    }
}

/// The numbers of the nodes that a test holds of.
pub open spec fn numbers_where(
    nodes: Map<Seq<char>, NodeModel>,
    holds: spec_fn(NodeModel) -> bool,
) -> Set<u64> {
    Set::new(
        |n: u64|
            exists|id: Seq<char>| #[trigger]
                nodes.dom().contains(id) && number_of(id) == Some(n) && holds(nodes[id]),
    )
}

/// The first node of a listing that is healthy and leads the shard.
pub open spec fn first_leading(list: Seq<NodeModel>) -> Option<Seq<char>>
    decreases list.len(),
{
    if list.len() == 0 {
        None
    } else if list[0].health == NodeHealth::Healthy && list[0].leading_shards.contains(SHARD) {
        Some(list[0].node_id)
    } else {
        first_leading(list.drop_first())
    }
}

/// The number of a node, or zero for none.
pub open spec fn number_or_zero(id: Option<Seq<char>>) -> u64 {
    match id {
        Some(id) => match number_of(id) {
            Some(n) => n,
            None => 0,
        },
        None => 0,
    }
}

impl HarnessModel {
    /// What an observer sees of the cluster.
    pub open spec fn projection(self) -> ProjectionModel {
        let nodes = self.state.nodes;
        let placed = self.state.placement.assignments;
        ProjectionModel {
            leader: self.leader,
            known: numbers_where(nodes, |n: NodeModel| true),
            healthy: numbers_where(nodes, |n: NodeModel| n.health == NodeHealth::Healthy),
            draining: numbers_where(nodes, |n: NodeModel| n.health == NodeHealth::Draining),
            hosted: numbers_where(nodes, |n: NodeModel| n.hosted_shards.contains(SHARD)),
            observed_leader: number_or_zero(first_leading(membership::listing(nodes))),
            placement: if placed.dom().contains(SHARD) {
                numbers_among(placed[SHARD].replicas)
            } else {
                Set::empty()
            },
            preferred_leader: if placed.dom().contains(SHARD) {
                number_or_zero(placed[SHARD].preferred_leader)
            } else {
                0
            },
            generation: self.state.placement.generation,
            forgotten: self.forgotten,
        }
    }
}

/// The numbers of the nodes in a list.
pub open spec fn numbers_among(ids: Seq<Seq<char>>) -> Set<u64> {
    Set::new(|n: u64| exists|i: int| 0 <= i < ids.len() && number_of(#[trigger] ids[i]) == Some(n))
}

/// A cluster that is driven action by action.
pub struct Harness {
    membership: Membership,
    placement: Placement,
    plan: ScalePlan,
    leader: bool,
    forgotten: BTreeSet<u64>,
}

impl View for Harness {
    type V = HarnessModel;

    closed spec fn view(&self) -> HarnessModel {
        HarnessModel {
            state: StateModel {
                nodes: self.membership.nodes(),
                placement: self.placement@,
                plan: self.plan,
            },
            config: self.membership.config(),
            leader: self.leader,
            forgotten: self.forgotten@,
        }
    }
}

fn holds_shard(shards: &Vec<ShardId>) -> (r: bool)
    ensures
        r == shards@.contains(SHARD),
{
    let mut i: usize = 0;
    while i < shards.len()
        invariant
            i <= shards.len(),
            forall|k: int| 0 <= k < i ==> shards@[k] != SHARD,
        decreases shards.len() - i,
    {
        if shards[i] == SHARD {
            assert(shards@[i as int] == SHARD);
            return true;
        }
        i += 1;
    }
    false
}

fn numbers_of_list(ids: &Vec<NodeId>) -> (r: BTreeSet<u64>)
    ensures
        r@ == numbers_among(ids.deep_view()),
{
    let ghost model = ids.deep_view();
    let mut r: BTreeSet<u64> = BTreeSet::new();
    let mut i: usize = 0;
    assert(r@ =~= numbers_among(model.take(0)));
    while i < ids.len()
        invariant
            i <= ids.len(),
            model == ids.deep_view(),
            r@ == numbers_among(model.take(i as int)),
        decreases ids.len() - i,
    {
        let ghost was = model.take(i as int);
        let ghost now = model.take(i + 1);
        assert(now =~= was.push(model[i as int]));
        assert(model[i as int] == ids@[i as int]@);
        let ghost before = r@;
        let n = node_number(ids[i].as_str());
        if let Some(n) = n {
            take_number(&mut r, n);
        }
        assert forall|x: u64| r@.contains(x) == numbers_among(now).contains(x) by {
            if numbers_among(was).contains(x) {
                let k = choose|k: int| 0 <= k < was.len() && number_of(#[trigger] was[k]) == Some(x);
                assert(now[k] == was[k]);
            }
            if numbers_among(now).contains(x) {
                let k = choose|k: int| 0 <= k < now.len() && number_of(#[trigger] now[k]) == Some(x);
                if k < i {
                    assert(was[k] == now[k]);
                }
            }
            if n == Some(x) {
                assert(number_of(now[i as int]) == Some(x));
            }
        }
        assert(r@ =~= numbers_among(now));
        i += 1;
    }
    assert(model.take(model.len() as int) =~= model);
    r
}

/// Which nodes an observer counts.
#[derive(Clone, Copy)]
enum Kind {
    Known,
    Healthy,
    Draining,
    Hosting,
}

spec fn is_kind(kind: Kind, node: NodeModel) -> bool {
    match kind {
        Kind::Known => true,
        Kind::Healthy => node.health == NodeHealth::Healthy,
        Kind::Draining => node.health == NodeHealth::Draining,
        Kind::Hosting => node.hosted_shards.contains(SHARD),
    }
}

fn of_kind(kind: Kind, node: &NodeInfo) -> (r: bool)
    ensures
        r == is_kind(kind, node.deep_view()),
{
    match kind {
        Kind::Known => true,
        Kind::Healthy => node.health == NodeHealth::Healthy,
        Kind::Draining => node.health == NodeHealth::Draining,
        Kind::Hosting => holds_shard(&node.hosted_shards),
    }
}

fn numbers_of_kind(
    nodes: &Vec<NodeInfo>,
    kind: Kind,
    Ghost(all): Ghost<Map<Seq<char>, NodeModel>>,
) -> (r: BTreeSet<u64>)
    requires
        membership::lists(all, nodes.deep_view()),
    ensures
        r@ == numbers_where(all, |n: NodeModel| is_kind(kind, n)),
{
    let ghost model = nodes.deep_view();
    let ghost holds = |n: NodeModel| is_kind(kind, n);
    let mut r: BTreeSet<u64> = BTreeSet::new();
    let mut i: usize = 0;
    while i < nodes.len()
        invariant
            i <= nodes.len(),
            model == nodes.deep_view(),
            holds == |n: NodeModel| is_kind(kind, n),
            forall|x: u64| #[trigger]
                r@.contains(x) <==> exists|k: int|
                    0 <= k < i && number_of((#[trigger] model[k]).node_id) == Some(x) && holds(
                        model[k],
                    ),
        decreases nodes.len() - i,
    {
        let ghost before = r@;
        assert(model[i as int] == nodes@[i as int].deep_view());
        if of_kind(kind, &nodes[i]) {
            if let Some(n) = node_number(nodes[i].node_id.as_str()) {
                take_number(&mut r, n);
            }
        }
        assert forall|x: u64| #[trigger]
            r@.contains(x) <==> exists|k: int|
                0 <= k < i + 1 && number_of((#[trigger] model[k]).node_id) == Some(x) && holds(
                    model[k],
                ) by {
            assert(before.contains(x) <==> exists|k: int|
                0 <= k < i && number_of((#[trigger] model[k]).node_id) == Some(x) && holds(
                    model[k],
                ));
            if number_of(model[i as int].node_id) == Some(x) && holds(model[i as int]) {
                assert(r@.contains(x));
            }
        }
        i += 1;
    }
    assert forall|x: u64| r@.contains(x) == numbers_where(all, holds).contains(x) by {
        if r@.contains(x) {
            let k = choose|k: int|
                0 <= k < i && number_of((#[trigger] model[k]).node_id) == Some(x) && holds(model[k]);
            assert(all.dom().contains(model[k].node_id));
        }
        if numbers_where(all, holds).contains(x) {
            let id = choose|id: Seq<char>| #[trigger]
                all.dom().contains(id) && number_of(id) == Some(x) && holds(all[id]);
            let k = choose|k: int| 0 <= k < model.len() && (#[trigger] model[k]).node_id == id;
            assert(all[model[k].node_id] == model[k]);
        }
    }
    assert(r@ =~= numbers_where(all, holds));
    r
}

fn leading_node(nodes: &Vec<NodeInfo>) -> (r: u64)
    ensures
        r == number_or_zero(first_leading(nodes.deep_view())),
{
    let ghost model = nodes.deep_view();
    let mut i: usize = 0;
    assert(model.skip(0) =~= model);
    while i < nodes.len()
        invariant
            i <= nodes.len(),
            model == nodes.deep_view(),
            first_leading(model) == first_leading(model.skip(i as int)),
        decreases nodes.len() - i,
    {
        let node = &nodes[i];
        assert(model.skip(i as int)[0] == node.deep_view());
        assert(model.skip(i as int).drop_first() =~= model.skip(i + 1));
        if node.health == NodeHealth::Healthy && holds_shard(&node.leading_shards) {
            return match node_number(node.node_id.as_str()) {
                Some(n) => n,
                None => 0,
            };
        }
        i += 1;
    }
    0
}

impl Harness {
    /// The cluster to begin with.
    pub fn initial() -> (r: Self)
        ensures
            r@ == HarnessModel::initial(),
    {
        let mut membership = Membership::new(
            MembershipConfig { suspect_after_ms: 10, dead_after_ms: 20 },
        );
        let _ = membership.heartbeat(&"a".to_owned(), 0, report(1, true, true));
        let _ = membership.heartbeat(&"b".to_owned(), 0, report(2, true, false));
        let _ = membership.heartbeat(&"c".to_owned(), 0, report(3, true, false));
        let mut placement = Placement::new(1);
        placement.assign(assignment(1, 2, 3, 1));
        let r = Harness {
            membership,
            placement,
            plan: ScalePlan { target_nodes: 3, replication_factor: 3 },
            leader: true,
            forgotten: BTreeSet::new(),
        };
        assert(r@ =~= HarnessModel::initial());
        r
    }

    /// What an observer sees.
    pub fn projection(&self) -> (r: Projection)
        ensures
            r@ == self@.projection(),
    {
        let nodes = self.membership.snapshot();
        let ghost all = self.membership.nodes();
        let (placement, preferred_leader): (BTreeSet<u64>, u64) = match self.placement.get(SHARD) {
            Some(a) => {
                let leader: u64 = match &a.preferred_leader {
                    Some(id) => match node_number(id.as_str()) {
                        Some(n) => n,
                        None => 0,
                    },
                    None => 0,
                };
                (numbers_of_list(&a.replicas), leader)
            },
            None => (BTreeSet::new(), 0),
        };
        let r = Projection {
            leader: self.leader,
            known: numbers_of_kind(&nodes, Kind::Known, Ghost(all)),
            healthy: numbers_of_kind(&nodes, Kind::Healthy, Ghost(all)),
            draining: numbers_of_kind(&nodes, Kind::Draining, Ghost(all)),
            hosted: numbers_of_kind(&nodes, Kind::Hosting, Ghost(all)),
            observed_leader: leading_node(&nodes),
            placement,
            preferred_leader,
            generation: self.placement.generation(),
            forgotten: self.forgotten.clone(),
        };
        proof {
            let p = self@.projection();
            assert(r@.known =~= p.known);
            assert(r@.healthy =~= p.healthy);
            assert(r@.draining =~= p.draining);
            assert(r@.hosted =~= p.hosted);
        }
        r
    }

    /// Proposes a command.
    fn propose(&mut self, command: Command) -> (r: bool)
        ensures
            r == old(self)@.leader,
            final(self)@ == old(self)@.proposing(command.deep_view()),
    {
        if !self.leader {
            return false;
        }
        let removed = match &command {
            Command::ForgetNode(id) => Some(id.clone()),
            _ => None,
        };
        apply_command(&mut self.membership, &mut self.placement, &mut self.plan, command);
        if let Some(id) = removed {
            if let Some(n) = node_number(id.as_str()) {
                if !self.knows(id.as_str()) {
                    take_number(&mut self.forgotten, n);
                }
            }
        }
        true
    }

    fn knows(&self, id: &str) -> (r: bool)
        ensures
            r == self@.state.nodes.dom().contains(id@),
    {
        let nodes = self.membership.snapshot();
        let ghost model = nodes.deep_view();
        let mut i: usize = 0;
        while i < nodes.len()
            invariant
                i <= nodes.len(),
                model == nodes.deep_view(),
                membership::lists(self@.state.nodes, model),
                forall|k: int| 0 <= k < i ==> (#[trigger] model[k]).node_id != id@,
            decreases nodes.len() - i,
        {
            assert(model[i as int] == nodes@[i as int].deep_view());
            if text_eq(nodes[i].node_id.as_str(), id) {
                return true;
            }
            i += 1;
        }
        false
    }

    fn reconcile(&mut self)
        ensures
            final(self)@ == old(self)@.proposing_all(scheduler::reconciliation(old(self)@.state)),
    {
        let commands = reconcile_commands(&self.membership, &self.placement, &self.plan);
        let ghost all = commands.deep_view();
        let ghost before = self@;
        let mut i: usize = 0;
        assert(all.take(0) =~= Seq::<CommandModel>::empty());
        while i < commands.len()
            invariant
                i <= commands.len(),
                all == commands.deep_view(),
                self@ == before.proposing_all(all.take(i as int)),
            decreases commands.len() - i,
        {
            let _ = self.propose(commands[i].clone());
            assert(all.take(i + 1).drop_last() =~= all.take(i as int));
            assert(all.take(i + 1).last() == commands@[i as int].deep_view());
            i += 1;
        }
        assert(all.take(all.len() as int) =~= all);
    }

    /// Lets the first node fall silent while the others report, and sweeps.
    fn mark_a_dead(&mut self) -> (r: Result<(), String>)
        ensures
            final(self)@ == old(self)@.with_nodes(old(self)@.first_silent()),
            match r {
                Ok(_) => old(self)@.only_first_dies(),
                Err(e) => !old(self)@.only_first_dies() && old(self)@.complains(
                    "mark_a_dead"@,
                    e@,
                ),
            },
    {
        let ghost was = self@;
        let nodes = self.membership.snapshot();
        let ghost list = nodes.deep_view();
        let mut i: usize = 0;
        assert(list.take(0) =~= Seq::<NodeModel>::empty());
        while i < nodes.len()
            invariant
                i <= nodes.len(),
                list == nodes.deep_view(),
                self@ == was.with_nodes(in_touch(was.state.nodes, list.take(i as int), 100)),
            decreases nodes.len() - i,
        {
            let node = &nodes[i];
            assert(list.take(i + 1).drop_last() =~= list.take(i as int));
            assert(list.take(i + 1).last() == node.deep_view());
            if !text_eq(node.node_id.as_str(), "a") && node.health == NodeHealth::Healthy {
                let again = HeartbeatReport {
                    address: node.address.clone(),
                    cloud_provider: node.cloud_provider.clone(),
                    region: node.region.clone(),
                    cluster_id: node.cluster_id.clone(),
                    failure_domain: node.failure_domain.clone(),
                    hosted_shards: node.hosted_shards.clone(),
                    leading_shards: node.leading_shards.clone(),
                    seq: 0,
                };
                assert(again.deep_view() =~= report_again(node.deep_view()));
                let _ = self.membership.heartbeat(&node.node_id, 100, again);
            }
            i += 1;
        }
        assert(list.take(list.len() as int) =~= list);
        let ghost before = self.membership.nodes();
        let dead = self.membership.sweep(100);
        let ghost after = self.membership.nodes();
        let ghost ids = dead.deep_view();
        assert(after =~= was.first_silent());
        let only_first = dead.len() == 1 && text_eq(dead[0].as_str(), "a");
        proof {
            if only_first {
                assert forall|id: Seq<char>| #[trigger]
                    membership::newly_dead(before, after, id) <==> id == "a"@ by {
                    assert(ids.contains(id) <==> membership::newly_dead(before, after, id));
                    assert(ids[0] == "a"@);
                    if ids.contains(id) {
                        assert(ids[ids.index_of(id)] == id);
                    }
                }
            } else if was.only_first_dies() {
                assert(membership::newly_dead(before, after, "a"@));
                assert(ids.contains("a"@));
                let k = ids.index_of("a"@);
                assert forall|j: int| 0 <= j < ids.len() implies ids[j] == "a"@ by {
                    assert(ids.contains(ids[j]));
                    assert(membership::newly_dead(before, after, ids[j]));
                }
                if ids.len() > 1 {
                    assert(crate::text::text_lt(ids[0], ids[1]));
                    crate::text::text_lt_irreflexive(ids[0]);
                }
                assert(ids[0] == dead@[0]@);
            }
        }
        if only_first {
            return Ok(());
        }
        let mut message = "expected only A to become dead, got [".to_owned();
        let list_text = quote_all(&dead);
        append_text(&mut message, list_text.as_str());
        append_text(&mut message, "]");
        assert(was.complains("mark_a_dead"@, message@)) by {
            assert(membership::lists_newly_dead(before, was.first_silent(), ids));
            reveal_strlit("mark_a_dead");
            reveal_strlit("lose_a_from_soft_membership");
            assert("mark_a_dead"@.len() != "lose_a_from_soft_membership"@.len());
        }
        Err(message)
    }

    /// Empties the placement, as after the loss of every brain, and lets the first three nodes
    /// report what they host.
    fn prepare_cold_start(&mut self)
        ensures
            final(self)@ == old(self)@.cold(),
    {
        let none: Vec<ShardAssignment> = Vec::new();
        assert(none.deep_view() =~= Seq::<AssignmentModel>::empty());
        self.placement.restore_from(none);
        let _ = self.membership.heartbeat(&"a".to_owned(), 1, report(1, true, false));
        let _ = self.membership.heartbeat(&"b".to_owned(), 1, report(2, true, true));
        let _ = self.membership.heartbeat(&"c".to_owned(), 1, report(3, true, false));
        assert(self@ =~= old(self)@.cold());
    }

    /// Takes an action.
    pub fn apply(&mut self, action: &str) -> (r: Result<(), String>)
        ensures
            final(self)@ == old(self)@.acting(action@),
            match r {
                Ok(_) => old(self)@.can_act(action@),
                Err(e) => !old(self)@.can_act(action@) && old(self)@.complains(action@, e@),
            },
    {
        if text_eq(action, "init") || text_eq(action, "idle") {
            Ok(())
        } else if text_eq(action, "become_follower") {
            self.leader = false;
            Ok(())
        } else if text_eq(action, "become_leader") {
            self.leader = true;
            Ok(())
        } else if text_eq(action, "lose_a_from_soft_membership") {
            if self.membership.forget(&"a".to_owned()) {
                Ok(())
            } else {
                Err("A was not present for soft-membership loss".to_owned())
            }
        } else if text_eq(action, "heartbeat_a") {
            let _ = self.membership.heartbeat(&"a".to_owned(), 0, report(1, true, true));
            Ok(())
        } else if text_eq(action, "add_d") {
            let _ = self.membership.heartbeat(&"d".to_owned(), 0, report(4, false, false));
            Ok(())
        } else if text_eq(action, "mark_a_dead") {
            self.mark_a_dead()
        } else if text_eq(action, "begin_drain_a") {
            if self.membership.drain(&"a".to_owned()) {
                Ok(())
            } else {
                Err("A was not present for drain".to_owned())
            }
        } else if text_eq(action, "evacuate_a") {
            let _ = self.membership.heartbeat(&"a".to_owned(), 1, report(1, false, false));
            Ok(())
        } else if text_eq(action, "prepare_cold_start") {
            self.prepare_cold_start();
            Ok(())
        } else if text_eq(action, "restore_snapshot_bcd") {
            let mut list: Vec<ShardAssignment> = Vec::new();
            list.push(assignment(2, 3, 4, 2));
            assert(list.deep_view() =~= seq![assignment_of(2, 3, 4, 2)]);
            self.placement.restore_from(list);
            Ok(())
        } else if is_reconciliation(action) {
            self.reconcile();
            Ok(())
        } else if text_eq(action, "attempt_forget_a_rejected") {
            if self.propose(Command::ForgetNode("a".to_owned())) {
                Ok(())
            } else {
                Err(
                    "leader did not accept the stale ForgetNode proposal for evaluation".to_owned(),
                )
            }
        } else {
            let mut message = "unsupported Quint scheduler action ".to_owned();
            let shown = quote(action);
            append_text(&mut message, shown.as_str());
            Err(message)
        }
    }
}

fn is_reconciliation(action: &str) -> (r: bool)
    ensures
        r == reconciles(action@),
{
    text_eq(action, "reconcile_follower_hold") || text_eq(action, "reconcile_incomplete_hold")
        || text_eq(action, "reconcile_degraded_hold") || text_eq(action, "reconcile_cold_adopt")
        || text_eq(action, "reconcile_replace_dead_a") || text_eq(
        action,
        "reconcile_replace_and_forget_drained_a",
    ) || text_eq(action, "reconcile_forget_drained_a_after_placement") || text_eq(
        action,
        "reconcile_idempotent",
    )
}

} // verus!
