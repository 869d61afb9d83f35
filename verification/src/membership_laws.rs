//! What the failure detector keeps, whatever order reports, sweeps and verdicts come in.

use crate::membership;
use crate::membership::MembershipConfig;
use crate::model::{NodeHealth, NodeModel, ReportModel};
use crate::oracle::PodLiveness;
use crate::text;
use vstd::prelude::*;

verus! {

/// A repeated or reordered report changes nothing: once a sequenced report is accepted, every
/// report that is sequenced no higher is outdated.
pub proof fn older_reports_are_outdated(
    node: Option<NodeModel>,
    node_id: Seq<char>,
    now_ms: u64,
    accepted: ReportModel,
    late: ReportModel,
)
    requires
        late.seq != 0,
        late.seq <= accepted.seq,
    ensures
        membership::outdated(
            Some(membership::reported(node, node_id, now_ms, accepted)),
            late,
        ),
{
}

/// The highest accepted sequence never falls, also not through an unsequenced report, which is
/// always accepted.
pub proof fn sequence_floor_never_falls(
    node: NodeModel,
    node_id: Seq<char>,
    now_ms: u64,
    report: ReportModel,
)
    ensures
        membership::reported(Some(node), node_id, now_ms, report).last_seq >= node.last_seq,
        membership::reported(Some(node), node_id, now_ms, report).last_seq >= report.seq,
        report.seq == 0 ==> !membership::outdated(Some(node), report),
{
}

/// Draining is sticky: neither a heartbeat nor a sweep undoes it, whatever the oracle says.
pub proof fn draining_is_sticky(
    config: MembershipConfig,
    node: NodeModel,
    node_id: Seq<char>,
    now_ms: u64,
    report: ReportModel,
    verdict: PodLiveness,
)
    requires
        node.health == NodeHealth::Draining,
    ensures
        membership::reported(Some(node), node_id, now_ms, report).health == NodeHealth::Draining,
        membership::swept(config, node, now_ms, verdict) == node,
{
}

/// An accepted report brings a node that is not draining back to health, dead or not.
pub proof fn heartbeat_resurrects(
    node: NodeModel,
    node_id: Seq<char>,
    now_ms: u64,
    report: ReportModel,
)
    requires
        node.health != NodeHealth::Draining,
    ensures
        membership::reported(Some(node), node_id, now_ms, report).health == NodeHealth::Healthy,
{
}

/// A pod reported gone is dead on the next sweep, however recently it was heard.
pub proof fn gone_is_dead(config: MembershipConfig, node: NodeModel, now_ms: u64)
    requires
        node.health != NodeHealth::Draining,
    ensures
        membership::swept(config, node, now_ms, PodLiveness::Gone).health == NodeHealth::Dead,
{
}

/// A pod reported running is never declared dead by silence.
pub proof fn running_is_not_dead(config: MembershipConfig, node: NodeModel, now_ms: u64)
    requires
        node.health != NodeHealth::Draining,
    ensures
        membership::swept(config, node, now_ms, PodLiveness::Running).health != NodeHealth::Dead,
{
}

/// Without an oracle silence alone decides: healthy, then suspect, then dead, and a clock that
/// moves back demotes nobody.
pub proof fn silence_decides(config: MembershipConfig, node: NodeModel, now_ms: u64)
    requires
        node.health != NodeHealth::Draining,
        0 < config.suspect_after_ms < config.dead_after_ms,
    ensures
        ({
            let health = membership::swept(config, node, now_ms, PodLiveness::Unknown).health;
            &&& now_ms - node.last_seen_ms < config.suspect_after_ms <==> health
                == NodeHealth::Healthy
            &&& config.suspect_after_ms <= now_ms - node.last_seen_ms < config.dead_after_ms
                <==> health == NodeHealth::Suspect
            &&& config.dead_after_ms <= now_ms - node.last_seen_ms <==> health == NodeHealth::Dead
        }),
{
}

/// A configured detector suspects a node before it declares it dead.
pub proof fn suspicion_comes_first(suspect: Option<Seq<char>>, dead: Option<Seq<char>>)
    ensures
        membership::config_of(suspect, dead).suspect_after_ms < u64::MAX
            ==> membership::config_of(suspect, dead).suspect_after_ms < membership::config_of(
            suspect,
            dead,
        ).dead_after_ms,
        membership::config_of(suspect, dead).suspect_after_ms > 0,
{
}

/// Death is reported on the transition only: a second sweep at the same time reports nobody.
pub proof fn death_is_reported_once(
    config: MembershipConfig,
    nodes: Map<Seq<char>, NodeModel>,
    now_ms: u64,
    verdict: spec_fn(Seq<char>) -> PodLiveness,
    id: Seq<char>,
)
    ensures
        ({
            let once = Map::new(
                |k: Seq<char>| nodes.dom().contains(k),
                |k: Seq<char>| membership::swept(config, nodes[k], now_ms, verdict(k)),
            );
            let twice = Map::new(
                |k: Seq<char>| once.dom().contains(k),
                |k: Seq<char>| membership::swept(config, once[k], now_ms, verdict(k)),
            );
            !membership::newly_dead(once, twice, id)
        }),
{
}

/// A registry has one listing.
pub proof fn listing_is_unique(
    nodes: Map<Seq<char>, NodeModel>,
    a: Seq<NodeModel>,
    b: Seq<NodeModel>,
)
    requires
        membership::lists(nodes, a),
        membership::lists(nodes, b),
    ensures
        a == b,
{
    listings_agree(nodes, a, b, a.len() as int);
    if a.len() < b.len() {
        let x = b[a.len() as int];
        assert(nodes.dom().contains(x.node_id));
        let j = choose|j: int| 0 <= j < a.len() && (#[trigger] a[j]).node_id == x.node_id;
        assert(a[j] == b[j]);
        assert(text::text_lt(b[j].node_id, b[a.len() as int].node_id));
        text::text_lt_irreflexive(x.node_id);
    }
    assert(a =~= b);
}

proof fn listings_agree(
    nodes: Map<Seq<char>, NodeModel>,
    a: Seq<NodeModel>,
    b: Seq<NodeModel>,
    n: int,
)
    requires
        membership::lists(nodes, a),
        membership::lists(nodes, b),
        0 <= n <= a.len(),
    ensures
        n <= b.len(),
        forall|i: int| 0 <= i < n ==> a[i] == b[i],
    decreases n,
{
    if n > 0 {
        listings_agree(nodes, a, b, n - 1);
        let x = a[n - 1].node_id;
        assert(nodes.dom().contains(x));
        text::text_lt_irreflexive(x);
        let j = choose|j: int| 0 <= j < b.len() && (#[trigger] b[j]).node_id == x;
        assert(b[j].node_id == x);
        if j < n - 1 {
            assert(a[j] == b[j]);
            assert(text::text_lt(a[j].node_id, a[n - 1].node_id));
        }
        if j > n - 1 {
            let y = b[n - 1].node_id;
            assert(nodes.dom().contains(y));
            text::text_lt_irreflexive(y);
            assert(text::text_lt(b[n - 1].node_id, b[j].node_id));
            let k = choose|k: int| 0 <= k < a.len() && (#[trigger] a[k]).node_id == y;
            assert(a[k].node_id == y);
            if k < n - 1 {
                assert(a[k] == b[k]);
                assert(text::text_lt(b[k].node_id, b[n - 1].node_id));
            } else if k > n - 1 {
                assert(text::text_lt(a[n - 1].node_id, a[k].node_id));
                text::text_lt_transitive(x, y, x);
            }
        }
    }
}


/// A report is taken in exactly where the node is not known, the report is not sequenced, or it is
/// sequenced higher than every report before it.
pub proof fn newer_reports_are_taken_in(node: NodeModel, report: ReportModel)
    ensures
        membership::outdated(Some(node), report) <==> report.seq > 0 && report.seq
            <= node.last_seq,
        !membership::outdated(None, report),
{
}

/// What a report says is known of the node from then on: when it was heard from, which shards it
/// hosts and leads, and whatever else it tells; what it does not tell stays as it was known.
pub proof fn reports_are_remembered(
    node: NodeModel,
    node_id: Seq<char>,
    now_ms: u64,
    report: ReportModel,
)
    ensures
        ({
            let n = membership::reported(Some(node), node_id, now_ms, report);
            &&& n.node_id == node.node_id
            &&& n.last_seen_ms == now_ms
            &&& n.hosted_shards == report.hosted_shards
            &&& n.leading_shards == report.leading_shards
            &&& report.address.len() > 0 ==> n.address == report.address
            &&& report.address.len() == 0 ==> n.address == node.address
            &&& report.cloud_provider.len() > 0 ==> n.cloud_provider == report.cloud_provider
            &&& report.cloud_provider.len() == 0 ==> n.cloud_provider == node.cloud_provider
            &&& report.region.len() > 0 ==> n.region == report.region
            &&& report.region.len() == 0 ==> n.region == node.region
            &&& report.cluster_id.len() > 0 ==> n.cluster_id == report.cluster_id
            &&& report.cluster_id.len() == 0 ==> n.cluster_id == node.cluster_id
            &&& report.failure_domain.len() == 0 && node.failure_domain.len() > 0
                ==> n.failure_domain == node.failure_domain
            &&& n.last_seq == node.last_seq || n.last_seq == report.seq
        }),
{
}

/// A node that is heard from for the first time is healthy, and known as it reports itself.
pub proof fn new_nodes_are_registered(node_id: Seq<char>, now_ms: u64, report: ReportModel)
    ensures
        ({
            let n = membership::reported(None, node_id, now_ms, report);
            &&& n.node_id == node_id
            &&& n.health == NodeHealth::Healthy
            &&& n.last_seen_ms == now_ms
            &&& n.address == report.address
            &&& n.cloud_provider == report.cloud_provider
            &&& n.region == report.region
            &&& n.cluster_id == report.cluster_id
            &&& n.hosted_shards == report.hosted_shards
            &&& n.leading_shards == report.leading_shards
            &&& n.last_seq == report.seq
        }),
{
}

/// Some texts, one after the other, with a slash between them.
pub open spec fn with_slashes(parts: Seq<Seq<char>>) -> Seq<char>
    decreases parts.len(),
{
    if parts.len() == 0 {
        Seq::empty()
    } else if parts.len() == 1 {
        parts[0]
    } else {
        parts[0] + seq!['/'] + with_slashes(parts.drop_first())
    }
}

/// The parts of a place that are told, without case and surrounding white space.
pub open spec fn told_parts(parts: Seq<Seq<char>>) -> Seq<Seq<char>> {
    parts.map_values(|p: Seq<char>| text::lowered(text::trimmed(p))).filter(
        |p: Seq<char>| p.len() > 0,
    )
}

proof fn parts_with_slashes(a: Seq<char>, b: Seq<char>, c: Seq<char>)
    ensures
        membership::slashed(membership::slashed(a, b), c) == with_slashes(
            seq![a, b, c].filter(|p: Seq<char>| p.len() > 0),
        ),
{
    reveal_with_fuel(Seq::<_>::filter, 4);
    reveal_with_fuel(with_slashes, 4);
    let keep = |p: Seq<char>| p.len() > 0;
    let all = seq![a, b, c];
    let two = seq![a, b];
    let one = seq![a];
    assert(all.drop_last() =~= two);
    assert(two.drop_last() =~= one);
    assert(one.drop_last() =~= Seq::<Seq<char>>::empty());
    let none = Seq::<Seq<char>>::empty();
    assert(one.filter(keep) =~= if keep(a) {
        seq![a]
    } else {
        none
    });
    let f = all.filter(keep);
    let want = with_slashes(f);
    if keep(a) && keep(b) && keep(c) {
        assert(f =~= seq![a, b, c]);
        assert(f.drop_first() =~= seq![b, c]);
        assert(seq![b, c].drop_first() =~= seq![c]);
        assert(want =~= a + seq!['/'] + (b + seq!['/'] + c));
        assert(want =~= (a.push('/') + b).push('/') + c);
    } else if keep(a) && keep(b) {
        assert(f =~= seq![a, b]);
        assert(f.drop_first() =~= seq![b]);
        assert(want =~= a.push('/') + b);
    } else if keep(a) && keep(c) {
        assert(f =~= seq![a, c]);
        assert(f.drop_first() =~= seq![c]);
        assert(want =~= a.push('/') + c);
    } else if keep(b) && keep(c) {
        assert(f =~= seq![b, c]);
        assert(f.drop_first() =~= seq![c]);
        assert(want =~= b.push('/') + c);
    } else if keep(a) {
        assert(f =~= seq![a]);
    } else if keep(b) {
        assert(f =~= seq![b]);
    } else if keep(c) {
        assert(f =~= seq![c]);
    } else {
        assert(f =~= none);
        assert(c =~= Seq::<char>::empty());
    }
}

/// The failure domain of a node is the one it tells, without case and surrounding white space;
/// where it tells none, the cloud, the region and the cluster it tells, with slashes between them.
pub proof fn domains_are_told_or_made_up(report: ReportModel)
    ensures
        ({
            let told = text::lowered(text::trimmed(report.failure_domain));
            let parts = told_parts(seq![report.cloud_provider, report.region, report.cluster_id]);
            membership::domain_of_report(report) == if text::trimmed(report.failure_domain).len()
                > 0 {
                told
            } else {
                with_slashes(parts)
            }
        }),
{
    let fold = |p: Seq<char>| text::lowered(text::trimmed(p));
    let raw = seq![report.cloud_provider, report.region, report.cluster_id];
    assert(raw.map_values(fold) =~= seq![
        fold(report.cloud_provider),
        fold(report.region),
        fold(report.cluster_id),
    ]);
    parts_with_slashes(
        fold(report.cloud_provider),
        fold(report.region),
        fold(report.cluster_id),
    );
    let joined = with_slashes(told_parts(raw));
    if joined.len() == 0 {
        assert(joined =~= Seq::empty());
    }
}

/// A node that has told no failure domain yet gets one made up of its cloud, its region and its
/// cluster, or its own id where it has told none of these.
pub proof fn every_node_gets_a_domain(
    node: NodeModel,
    node_id: Seq<char>,
    now_ms: u64,
    report: ReportModel,
)
    requires
        node.failure_domain.len() == 0,
        report.failure_domain.len() == 0,
    ensures
        ({
            let n = membership::reported(Some(node), node_id, now_ms, report);
            let parts = told_parts(seq![n.cloud_provider, n.region, n.cluster_id]);
            n.failure_domain == if parts.len() == 0 {
                node_id
            } else {
                with_slashes(parts)
            }
        }),
{
    let n = membership::reported(Some(node), node_id, now_ms, report);
    let fold = |p: Seq<char>| text::lowered(text::trimmed(p));
    let raw = seq![n.cloud_provider, n.region, n.cluster_id];
    assert(raw.map_values(fold) =~= seq![
        fold(n.cloud_provider),
        fold(n.region),
        fold(n.cluster_id),
    ]);
    parts_with_slashes(fold(n.cloud_provider), fold(n.region), fold(n.cluster_id));
    let parts = told_parts(raw);
    if parts.len() > 0 {
        let told = |p: Seq<char>| p.len() > 0;
        raw.map_values(fold).lemma_filter_pred(told, 0);
        assert(told(parts[0]));
        assert(with_slashes(parts).len() >= parts[0].len());
    }
}

/// A sweep changes nothing of a node but its health.
pub proof fn sweeps_change_only_health(
    config: MembershipConfig,
    node: NodeModel,
    now_ms: u64,
    verdict: PodLiveness,
)
    ensures
        membership::swept(config, node, now_ms, verdict) == (NodeModel {
            health: membership::swept(config, node, now_ms, verdict).health,
            ..node
        }),
{
}

/// A pod that runs is suspect once it has been silent long enough for that, and healthy before.
pub proof fn running_is_at_most_suspect(config: MembershipConfig, node: NodeModel, now_ms: u64)
    requires
        node.health != NodeHealth::Draining,
        0 < config.suspect_after_ms < config.dead_after_ms,
    ensures
        ({
            let health = membership::swept(config, node, now_ms, PodLiveness::Running).health;
            &&& now_ms - node.last_seen_ms < config.suspect_after_ms <==> health
                == NodeHealth::Healthy
            &&& now_ms - node.last_seen_ms >= config.suspect_after_ms <==> health
                == NodeHealth::Suspect
        }),
{
}

/// Exactly the nodes that a sweep finds dead and that were not dead before are reported.
pub proof fn deaths_are_reported(
    before: Map<Seq<char>, NodeModel>,
    after: Map<Seq<char>, NodeModel>,
    ids: Seq<Seq<char>>,
    id: Seq<char>,
)
    requires
        membership::lists_newly_dead(before, after, ids),
    ensures
        (exists|i: int| 0 <= i < ids.len() && #[trigger] ids[i] == id) <==> before.dom().contains(id)
            && before[id].health != NodeHealth::Dead && after[id].health == NodeHealth::Dead,
{
    if membership::newly_dead(before, after, id) {
        assert(ids.contains(id));
        let i = choose|i: int| 0 <= i < ids.len() && ids[i] == id;
        assert(ids[i] == id);
    }
    if exists|i: int| 0 <= i < ids.len() && #[trigger] ids[i] == id {
        assert(ids.contains(id));
    }
}

/// The timing is what the settings say: a positive number of milliseconds each, six and thirty
/// seconds where a setting gives none, and death at least one millisecond after suspicion.
pub proof fn timing_follows_the_settings(suspect: Option<Seq<char>>, dead: Option<Seq<char>>)
    ensures
        ({
            let c = membership::config_of(suspect, dead);
            let wish = |s: Option<Seq<char>>, otherwise: u64|
                match s {
                    Some(t) => match crate::decimal::unsigned_of(t) {
                        Some(n) => if n > 0 {
                            n
                        } else {
                            otherwise
                        },
                        None => otherwise,
                    },
                    None => otherwise,
                };
            &&& c.suspect_after_ms == wish(suspect, 6_000)
            &&& wish(dead, 30_000) > c.suspect_after_ms ==> c.dead_after_ms == wish(dead, 30_000)
            &&& wish(dead, 30_000) <= c.suspect_after_ms && c.suspect_after_ms < u64::MAX
                ==> c.dead_after_ms == c.suspect_after_ms + 1
        }),
{
}

} // verus!
