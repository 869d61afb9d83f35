//! What the control plane answers, said of who may act: where a write goes, what is left of a
//! report, and what a policy says.

use crate::api;
use crate::api::{RouteModel, StandingModel};
use crate::model::{ReportModel, ShardId};
use crate::text;
use vstd::prelude::*;

verus! {

/// An address under a base is the base without slashes at its end, and the path behind it.
pub proof fn bases_lose_their_last_slashes(base: Seq<char>)
    ensures
        ({
            let r = api::unslashed(base);
            &&& r.len() <= base.len()
            &&& r == base.take(r.len() as int)
            &&& r.len() > 0 ==> r.last() != '/'
            &&& forall|i: int| r.len() <= i < base.len() ==> #[trigger] base[i] == '/'
        }),
    decreases base.len(),
{
    let r = api::unslashed(base);
    if base.len() > 0 && base.last() == '/' {
        bases_lose_their_last_slashes(base.drop_last());
        assert(r =~= base.take(r.len() as int));
        assert forall|i: int| r.len() <= i < base.len() implies #[trigger] base[i] == '/' by {
            if i < base.len() - 1 {
                assert(base[i] == base.drop_last()[i]);
            }
        }
    } else {
        assert(r =~= base.take(r.len() as int));
    }
}

/// Whether a route leads to the leader, as far as this member knows one.
pub open spec fn leads_to_the_leader(s: StandingModel, path: Seq<char>, r: RouteModel) -> bool {
    r matches RouteModel::Forward(url) && s.leader_addr is Some && url.len() >= path.len()
        && url.skip(url.len() - path.len()) == path && url.take(url.len() - path.len())
        == api::unslashed(s.leader_addr->0)
}

/// Soft state is taken in by the leader, and by anyone else only while no leader is known; a write
/// that steers the leader is taken in by the leader alone. A follower that knows the leader sends
/// both there, and a member that may not take part does neither.
pub proof fn writes_go_to_the_leader(s: StandingModel, path: Seq<char>)
    ensures
        ({
            let soft = api::soft_route(s, path);
            let hard = api::hard_route(s, path);
            &&& soft is Unavailable <==> !s.available
            &&& hard is Unavailable <==> !s.available
            &&& soft is Here <==> s.available && (s.leader || s.leader_addr is None)
            &&& hard is Here <==> s.available && s.leader
            &&& s.available && !s.leader && s.leader_addr is Some ==> leads_to_the_leader(
                s,
                path,
                soft,
            ) && leads_to_the_leader(s, path, hard)
            &&& soft !is NotLeader
            &&& hard is NotLeader <==> s.available && !s.leader && s.leader_addr is None
        }),
{
    if s.leader_addr is Some {
        let base = api::unslashed(s.leader_addr->0);
        let url = base + path;
        assert(url.skip(url.len() - path.len()) =~= path);
        assert(url.take(url.len() - path.len()) =~= base);
    }
}

/// The shards that a report still names stand in the order in which it first named them, and nothing
/// else of the report is touched.
pub proof fn sanitized_reports_keep_their_order(report: ReportModel, shard_count: u32)
    ensures
        ({
            let r = api::sanitized(report, shard_count);
            &&& in_first_order(report.hosted_shards, r.hosted_shards)
            &&& in_first_order(report.leading_shards, r.leading_shards)
            &&& r == (ReportModel {
                hosted_shards: r.hosted_shards,
                leading_shards: r.leading_shards,
                ..report
            })
        }),
{
    let hosted = api::shards_within(report.hosted_shards, |x: ShardId| x < shard_count);
    within_keeps_order(report.hosted_shards, |x: ShardId| x < shard_count);
    within_keeps_order(report.leading_shards, |x: ShardId| hosted.contains(x));
}

/// Whether a shard is named at a position for the first time.
pub open spec fn first_named_at(shards: Seq<ShardId>, s: ShardId, i: int) -> bool {
    &&& 0 <= i < shards.len()
    &&& shards[i] == s
    &&& forall|k: int| 0 <= k < i ==> #[trigger] shards[k] != s
}

/// Whether some of the shards were first named at these positions, one after the other.
pub open spec fn first_named_along(
    shards: Seq<ShardId>,
    some: Seq<ShardId>,
    positions: Seq<int>,
) -> bool {
    &&& positions.len() == some.len()
    &&& forall|a: int|
        0 <= a < some.len() ==> first_named_at(shards, some[a], #[trigger] positions[a])
    &&& forall|a: int, b: int|
        0 <= a < b < some.len() ==> #[trigger] positions[a] < #[trigger] positions[b]
}

/// Whether some of the shards stand in the order in which they were first named.
pub open spec fn in_first_order(shards: Seq<ShardId>, some: Seq<ShardId>) -> bool {
    exists|positions: Seq<int>| #[trigger] first_named_along(shards, some, positions)
}

proof fn within_keeps_order(shards: Seq<ShardId>, allowed: spec_fn(ShardId) -> bool)
    ensures
        in_first_order(shards, api::shards_within(shards, allowed)),
    decreases shards.len(),
{
    let all = api::shards_within(shards, allowed);
    if shards.len() == 0 {
        assert(first_named_along(shards, all, Seq::empty()));
    } else {
        let rest = shards.drop_last();
        let n = rest.len() as int;
        let before = api::shards_within(rest, allowed);
        within_keeps_order(rest, allowed);
        api::shards_within_claims(rest, allowed);
        let was = choose|p: Seq<int>| #[trigger] first_named_along(rest, before, p);
        let positions = if all.len() > before.len() {
            was.push(n)
        } else {
            was
        };
        assert forall|a: int| 0 <= a < all.len() implies first_named_at(
            shards,
            all[a],
            #[trigger] positions[a],
        ) by {
            if a < before.len() {
                assert(first_named_at(rest, before[a], was[a]));
                assert forall|k: int| 0 <= k < was[a] implies #[trigger] shards[k] != all[a] by {
                    assert(rest[k] != before[a]);
                }
            } else {
                assert forall|k: int| 0 <= k < n implies #[trigger] shards[k] != all[a] by {
                    assert(rest[k] == shards[k]);
                    assert(rest.contains(rest[k]));
                    assert(before.contains(all[a]) <==> rest.contains(all[a]) && allowed(all[a]));
                }
            }
        }
        assert forall|a: int, b: int| 0 <= a < b < all.len() implies #[trigger] positions[a]
            < #[trigger] positions[b] by {
            assert(first_named_at(rest, before[a], was[a]));
        }
        assert(first_named_along(shards, all, positions));
    }
}

/// A wish is kept as it was said, unless it says nothing but white space.
pub proof fn wishes_are_kept_as_said(wish: Option<Seq<char>>)
    ensures
        api::said(wish) is Some <==> wish is Some && text::trimmed(wish->0).len() > 0,
        api::said(wish) is Some ==> api::said(wish) == wish,
{
}

/// A value counts in lower case and without the white space around it, and as unknown where nothing
/// is left.
pub proof fn blank_values_are_unknown(value: Seq<char>)
    ensures
        text::trimmed(value).len() > 0 ==> api::known_or_unknown(value) == text::lowered(
            text::trimmed(value),
        ),
        text::trimmed(value).len() == 0 ==> api::known_or_unknown(value) == "unknown"@,
{
}

} // verus!
