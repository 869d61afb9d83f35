//! What a member does, said of its log, its votes and its messages: how it is elected, how its log
//! is replicated, and when its entries are committed.

use crate::cluster::CommandModel;
use crate::raft::{AppendEntriesResp, InstallSnapshotResp, RequestVoteResp, Role};
use crate::raft_laws;
use crate::raft_model;
use crate::raft_model::{
    AppendModel, EntryModel, InstallModel, MessageModel, RaftModel, VoteModel,
};
use vstd::prelude::*;

verus! {

/// Whether so many members are more than half of the group.
pub open spec fn is_majority(s: RaftModel, members: int) -> bool {
    2 * members > s.peers.len() + 1
}

/// The term of the entry at an index that a member knows: that of the entry, or of the snapshot
/// that ends there.
pub open spec fn known_term(s: RaftModel, index: int) -> u64 {
    if index == s.base_index {
        s.base_term
    } else {
        s.log[index - s.base_index - 1].term
    }
}

/// Whether the messages of `t` are those of `s` and one to each of `to`, in order, of which
/// `holds` is true.
pub open spec fn one_each(
    s: RaftModel,
    t: RaftModel,
    to: Seq<Seq<char>>,
    holds: spec_fn(Seq<char>, MessageModel) -> bool,
) -> bool {
    &&& t.out.len() == s.out.len() + to.len()
    &&& forall|i: int| 0 <= i < s.out.len() ==> #[trigger] t.out[i] == s.out[i]
    &&& forall|i: int|
        0 <= i < to.len() ==> (#[trigger] t.out[s.out.len() + i]).to == to[i] && holds(
            to[i],
            t.out[s.out.len() + i].msg,
        )
}

/// The next entry that a leader takes a peer to need.
pub open spec fn next_for(s: RaftModel, peer: Seq<char>) -> int {
    if s.next_index.dom().contains(peer) {
        s.next_index[peer] as int
    } else {
        s.base_index + s.log.len() + 1
    }
}

/// Whether a message brings a peer what it needs next: the entries from there on, behind the one
/// before them, or the snapshot where that entry is compacted away.
pub open spec fn brings_next(s: RaftModel, peer: Seq<char>, m: MessageModel) -> bool {
    let next = next_for(s, peer);
    if next > s.base_index {
        m matches MessageModel::AppendEntries(req) && {
            &&& req.term == s.current_term
            &&& req.leader_id == s.id
            &&& req.prev_log_index == next - 1
            &&& next - 1 <= s.base_index + s.log.len() ==> req.prev_log_term == known_term(
                s,
                next - 1,
            )
            &&& req.leader_commit == s.commit_index
            &&& next <= s.base_index + s.log.len() ==> {
                &&& req.entries.len() == s.base_index + s.log.len() + 1 - next
                &&& forall|i: int|
                    0 <= i < req.entries.len() ==> #[trigger] req.entries[i] == s.log[next
                        - s.base_index - 1 + i]
            }
            &&& next > s.base_index + s.log.len() ==> req.entries.len() == 0
        }
    } else {
        m matches MessageModel::InstallSnapshot(req) && {
            &&& req.term == s.current_term
            &&& req.leader_id == s.id
            &&& req.last_included_index == s.base_index
            &&& req.last_included_term == s.base_term
            &&& s.snapshot == Some(req.data)
        }
    }
}

/// Whether a member can bring every peer what it needs: there is a snapshot wherever an entry that
/// is needed is compacted away.
pub open spec fn can_bring(s: RaftModel) -> bool {
    s.snapshot is Some || forall|i: int|
        0 <= i < s.peers.len() ==> next_for(s, #[trigger] s.peers[i]) > s.base_index
}

proof fn replication_brings_next(s: RaftModel, to: Seq<Seq<char>>)
    requires
        s.base_index + s.log.len() <= u64::MAX,
        s.snapshot is Some || forall|i: int|
            0 <= i < to.len() ==> next_for(s, #[trigger] to[i]) > s.base_index,
    ensures
        one_each(
            s,
            s.replicating_to(to),
            to,
            |p: Seq<char>, m: MessageModel| brings_next(s, p, m),
        ),
        s.replicating_to(to).same_but_outbox(s),
    decreases to.len(),
{
    s.replicating_frame(to);
    if to.len() > 0 {
        let rest = to.drop_last();
        assert forall|i: int|
            s.snapshot is None && 0 <= i < rest.len() implies next_for(s, #[trigger] rest[i])
            > s.base_index by {
            assert(rest[i] == to[i]);
        }
        replication_brings_next(s, rest);
        let a = s.replicating_to(rest);
        let t = s.replicating_to(to);
        let peer = to[to.len() - 1];
        assert(next_for(a, peer) == next_for(s, peer));
        assert(s.snapshot is None ==> next_for(s, peer) > s.base_index);
        assert(t.out.len() == a.out.len() + 1);
        assert(t.out.drop_last() =~= a.out);
        assert(brings_next(s, peer, t.out.last().msg));
        assert forall|i: int| 0 <= i < s.out.len() implies #[trigger] t.out[i] == s.out[i] by {
            assert(t.out[i] == a.out[i]);
        }
        assert forall|i: int| 0 <= i < to.len() implies (#[trigger] t.out[s.out.len() + i]).to
            == to[i] && brings_next(s, to[i], t.out[s.out.len() + i].msg) by {
            if i < rest.len() {
                assert(t.out[s.out.len() + i] == a.out[s.out.len() + i]);
                assert(rest[i] == to[i]);
            }
        }
    }
}

/// A leader whose heartbeat is due brings every peer what it needs next, and one whose heartbeat is
/// not due sends nothing. A leader that has heard from a majority since the last check leads on.
pub proof fn heartbeats_replicate(s: RaftModel)
    requires
        s.wf(),
        s.role == Role::Leader,
        can_bring(s),
    ensures
        s.heartbeat_elapsed + 1 >= s.cfg.heartbeat_ticks ==> one_each(
            s,
            s.ticked(),
            s.peers,
            |p: Seq<char>, m: MessageModel| brings_next(s, p, m),
        ),
        s.heartbeat_elapsed + 1 < s.cfg.heartbeat_ticks ==> s.ticked().out == s.out,
        is_majority(s, s.acked_since_check.len() as int + 1) || s.election_elapsed + 1
            < s.randomized_election_timeout ==> s.ticked().role == Role::Leader,
        s.ticked().log == s.log && s.ticked().current_term == s.current_term
            && s.ticked().commit_index == s.commit_index,
        s.heartbeat_elapsed + 1 >= s.cfg.heartbeat_ticks ==> s.ticked().heartbeat_elapsed == 0,
        s.heartbeat_elapsed + 1 < s.cfg.heartbeat_ticks ==> s.ticked().heartbeat_elapsed
            == s.heartbeat_elapsed + 1,
        s.election_elapsed + 1 >= s.randomized_election_timeout ==> s.ticked().acked_since_check
            == Set::<Seq<char>>::empty(),
        s.election_elapsed + 1 < s.randomized_election_timeout ==> s.ticked().acked_since_check
            == s.acked_since_check,
{
    let b = RaftModel { heartbeat_elapsed: 0, ..s };
    assert forall|i: int| b.snapshot is None && 0 <= i < s.peers.len() implies next_for(
        b,
        #[trigger] s.peers[i],
    ) > b.base_index by {
        assert(next_for(b, s.peers[i]) == next_for(s, s.peers[i]));
    }
    replication_brings_next(b, s.peers);
    if s.heartbeat_elapsed + 1 >= s.cfg.heartbeat_ticks {
        let t = s.ticked();
        assert(t.out == b.replicating_to(s.peers).out);
        assert forall|i: int| 0 <= i < s.peers.len() implies (
        #[trigger] t.out[s.out.len() + i]).to == s.peers[i] && brings_next(
            s,
            s.peers[i],
            t.out[s.out.len() + i].msg,
        ) by {
            assert(brings_next(b, s.peers[i], t.out[s.out.len() + i].msg));
        }
    }
}

/// A leader takes a proposed command in as its newest entry, of its term and at the next index, and
/// brings every peer what it needs. A leader without peers has committed it at once. Nobody else
/// does anything.
pub proof fn proposals_are_appended(s: RaftModel, command: CommandModel)
    requires
        s.wf(),
        can_bring(s),
        s.last_index() < u64::MAX,
    ensures
        ({
            let t = s.proposed(command);
            &&& s.role != Role::Leader ==> t == s
            &&& s.role == Role::Leader ==> {
                &&& t.log == s.log.push(
                    EntryModel {
                        term: s.current_term,
                        index: (s.base_index + s.log.len() + 1) as u64,
                        command: Some(command),
                    },
                )
                &&& t.role == Role::Leader
                &&& t.current_term == s.current_term
                &&& t.dirty
                &&& t.commit_index >= s.commit_index
                &&& t.out.len() == s.out.len() + s.peers.len()
                &&& forall|i: int|
                    0 <= i < s.peers.len() ==> (#[trigger] t.out[s.out.len() + i]).to == s.peers[i]
                        && brings_next(t, s.peers[i], t.out[s.out.len() + i].msg)
                &&& s.peers.len() == 0 ==> t.commit_index == s.base_index + s.log.len() + 1
            }
        }),
{
    if s.role == Role::Leader {
        let a = s.appending(Some(command));
        let b = a.advancing();
        assert forall|i: int| b.snapshot is None && 0 <= i < s.peers.len() implies next_for(
            b,
            #[trigger] s.peers[i],
        ) > b.base_index by {
            assert(next_for(s, s.peers[i]) > s.base_index);
        }
        replication_brings_next(b, s.peers);
        let t = s.proposed(command);
        assert forall|i: int| 0 <= i < s.peers.len() implies (
        #[trigger] t.out[s.out.len() + i]).to == s.peers[i] && brings_next(
            t,
            s.peers[i],
            t.out[s.out.len() + i].msg,
        ) by {
            assert(brings_next(b, s.peers[i], t.out[b.out.len() + i].msg));
        }
        raft_laws::highest_committable_bounds(a, a.last_index());
        if s.peers.len() == 0 {
            assert(a.committable(a.last_index()));
            highest_is_highest(a, a.last_index(), a.last_index());
        }
    }
}

proof fn highest_is_highest(s: RaftModel, top: int, n: int)
    requires
        s.commit_index < n <= top,
        s.committable(n),
    ensures
        n <= s.highest_committable(top) <= top,
    decreases top - n,
{
    if top > n {
        if !s.committable(top) {
            highest_is_highest(s, top - 1, n);
        }
    }
}

/// How many peers are known to hold the log up to an index.
pub open spec fn peers_with(s: RaftModel, n: int) -> nat {
    s.peers.filter(
        |p: Seq<char>| s.match_index.dom().contains(p) && s.match_index[p] >= n,
    ).len()
}

proof fn peers_with_is_holders(s: RaftModel, peers: Seq<Seq<char>>, n: int)
    requires
        n > 0,
    ensures
        raft_model::count_holders(peers, s.match_index, n) == peers.filter(
            |p: Seq<char>| s.match_index.dom().contains(p) && s.match_index[p] >= n,
        ).len(),
    decreases peers.len(),
{
    reveal(Seq::filter);
    if peers.len() > 0 {
        peers_with_is_holders(s, peers.drop_last(), n);
    }
}

/// A success from a peer moves what the leader knows of it up to what it acknowledges, within the
/// log, and the commit point to every entry of the leader's own term that a majority then holds.
/// Of the other peers it knows as much as before. A commit point that moved is told to every peer.
pub proof fn acknowledged_entries_are_committed(
    s: RaftModel,
    from: Seq<char>,
    resp: AppendEntriesResp,
    n: int,
)
    requires
        s.wf(),
        s.role == Role::Leader,
        s.peers.contains(from),
        resp.term == s.current_term,
        resp.success,
    ensures
        ({
            let t = s.stepped(from, MessageModel::AppendEntriesResp(resp));
            let last = s.base_index + s.log.len();
            let was = if s.match_index.dom().contains(from) {
                s.match_index[from] as int
            } else {
                0
            };
            let told = if resp.match_index <= last {
                resp.match_index as int
            } else {
                last
            };
            &&& t.match_index.dom().contains(from)
            &&& t.match_index[from] == if told >= was {
                told
            } else {
                was
            }
            &&& t.next_index.dom().contains(from)
            &&& t.match_index[from] < u64::MAX ==> t.next_index[from] == t.match_index[from] + 1
            &&& forall|p: Seq<char>|
                p != from ==> (#[trigger] t.match_index.dom().contains(p)
                    == s.match_index.dom().contains(p)) && t.match_index[p] == s.match_index[p]
            &&& t.acked_since_check.contains(from)
            &&& t.log == s.log && t.role == Role::Leader && t.current_term == s.current_term
            &&& (s.commit_index < n <= last && known_term(s, n) == s.current_term && is_majority(
                s,
                peers_with(t, n) as int + 1,
            )) ==> t.commit_index >= n
            &&& t.commit_index > s.commit_index ==> known_term(s, t.commit_index as int)
                == s.current_term && is_majority(
                s,
                peers_with(t, t.commit_index as int) as int + 1,
            )
                && s.commit_index < t.commit_index <= last
            &&& t.commit_index == s.commit_index ==> t.out == s.out
            &&& t.commit_index > s.commit_index && can_bring(t) ==> {
                &&& t.dirty
                &&& t.out.len() == s.out.len() + s.peers.len()
                &&& forall|i: int|
                    0 <= i < s.peers.len() ==> (#[trigger] t.out[s.out.len() + i]).to == s.peers[i]
                        && brings_next(t, s.peers[i], t.out[s.out.len() + i].msg)
            }
        }),
{
    let acked = RaftModel { acked_since_check: s.acked_since_check.insert(from), ..s };
    let now = raft_model::larger(
        raft_model::value_or(s.match_index, from, 0),
        raft_model::smaller(resp.match_index, s.last_index() as u64),
    );
    let a = RaftModel {
        match_index: acked.match_index.insert(from, now),
        next_index: acked.next_index.insert(from, raft_model::saturated(now + 1) as u64),
        ..acked
    };
    a.advancing().replicating_frame(a.peers);
    raft_laws::highest_committable_bounds(a, a.last_index());
    let t = s.stepped(from, MessageModel::AppendEntriesResp(resp));
    if s.commit_index < n <= s.last_index() {
        peers_with_is_holders(a, a.peers, n);
        if known_term(s, n) == s.current_term && is_majority(s, peers_with(t, n) as int + 1) {
            assert(a.committable(n));
            highest_is_highest(a, a.last_index(), n);
        }
    }
    if t.commit_index > s.commit_index {
        let c = t.commit_index as int;
        peers_with_is_holders(a, a.peers, c);
        assert(a.committable(c));
        if can_bring(t) {
            let b = a.advancing();
            assert forall|i: int| b.snapshot is None && 0 <= i < s.peers.len() implies next_for(
                b,
                #[trigger] s.peers[i],
            ) > b.base_index by {
                assert(next_for(t, s.peers[i]) > t.base_index);
            }
            replication_brings_next(b, s.peers);
            assert forall|i: int| 0 <= i < s.peers.len() implies (
            #[trigger] t.out[s.out.len() + i]).to == s.peers[i] && brings_next(
                t,
                s.peers[i],
                t.out[s.out.len() + i].msg,
            ) by {
                assert(brings_next(b, s.peers[i], t.out[b.out.len() + i].msg));
            }
        }
    }
}

/// A refusal from a peer moves the next entry it is sent back to just behind what it says it holds,
/// but never behind what it has acknowledged, and it is sent what it then needs. A refusal that
/// does not move it back changes nothing but that the peer was heard from.
pub proof fn refusals_rewind(s: RaftModel, from: Seq<char>, resp: AppendEntriesResp)
    requires
        s.wf(),
        s.role == Role::Leader,
        s.peers.contains(from),
        resp.term == s.current_term,
        !resp.success,
        resp.match_index < u64::MAX,
        s.next_index.dom().contains(from),
    ensures
        ({
            let t = s.stepped(from, MessageModel::AppendEntriesResp(resp));
            let was = if s.match_index.dom().contains(from) {
                s.match_index[from] as int
            } else {
                0
            };
            let back = if resp.match_index >= was {
                resp.match_index + 1
            } else {
                was + 1
            };
            &&& t.acked_since_check.contains(from)
            &&& t.match_index == s.match_index
            &&& t.commit_index == s.commit_index
            &&& t.log == s.log
            &&& back < s.next_index[from] ==> {
                &&& t.next_index[from] == back
                &&& t.out.len() == s.out.len() + 1
                &&& t.out.last().to == from
                &&& brings_next(t, from, t.out.last().msg)
            }
            &&& back >= s.next_index[from] ==> t.next_index == s.next_index && t.out == s.out
        }),
{
}

proof fn splice_meaning(s: RaftModel, entries: Seq<EntryModel>, prev: int)
    requires
        s.base_index <= prev <= s.base_index + s.log.len(),
        forall|i: int|
            0 <= i < entries.len() ==> (#[trigger] entries[i]).index == prev + 1 + i,
        forall|i: int|
            0 <= i < entries.len() && prev + 1 + i <= s.commit_index ==> prev + 1 + i
                <= s.base_index + s.log.len() && s.log[prev - s.base_index + i].term == (
            #[trigger] entries[i]).term,
    ensures
        s.spliced(entries).1,
        splices(s, s.spliced(entries).0, entries, prev),
    decreases entries.len(),
{
    if entries.len() == 0 {
        assert(matched(s, entries, prev, 0));
        assert(splices_from(s, s, entries, prev, 0));
    } else {
        let before = entries.drop_last();
        let k = before.len() as int;
        let e = entries[k];
        assert forall|i: int| 0 <= i < before.len() implies (#[trigger] before[i]).index == prev + 1
            + i by {
            assert(before[i] == entries[i]);
        }
        assert forall|i: int|
            0 <= i < before.len() && prev + 1 + i <= s.commit_index implies prev + 1 + i
            <= s.base_index + s.log.len() && s.log[prev - s.base_index + i].term == (
        #[trigger] before[i]).term by {
            assert(before[i] == entries[i]);
        }
        splice_meaning(s, before, prev);
        let m = s.spliced(before).0;
        let t = s.spliced(entries).0;
        let n = choose|n: int| #[trigger] splices_from(s, m, before, prev, n);
        assert(matched(s, before, prev, n));
        assert(e.index == prev + 1 + k);
        if n == k {
            assert(m == s);
            if prev + 1 + k <= s.base_index + s.log.len() && s.log[prev - s.base_index + k].term
                == e.term {
                assert(t == s);
                assert(matched(s, entries, prev, k + 1)) by {
                    assert forall|i: int| 0 <= i < k + 1 implies prev + 1 + i <= s.base_index
                        + s.log.len() && s.log[prev - s.base_index + i].term == (
                    #[trigger] entries[i]).term by {
                        if i < k {
                            assert(before[i] == entries[i]);
                        }
                    }
                }
                assert(splices_from(s, t, entries, prev, k + 1));
            } else {
                assert(!m.conflicts_committed(e));
                let at = prev - s.base_index + k;
                assert(matched(s, entries, prev, k)) by {
                    assert forall|i: int| 0 <= i < k implies prev + 1 + i <= s.base_index
                        + s.log.len() && s.log[prev - s.base_index + i].term == (
                    #[trigger] entries[i]).term by {
                        assert(before[i] == entries[i]);
                    }
                }
                assert(prev + k <= s.base_index + s.log.len()) by {
                    if k > 0 {
                        assert(before[k - 1] == entries[k - 1]);
                        assert(prev + 1 + (k - 1) <= s.base_index + s.log.len());
                    }
                }
                assert(entries.skip(k) =~= seq![e]);
                assert(t.log =~= s.log.take(at) + entries.skip(k));
                assert(splices_from(s, t, entries, prev, k));
            }
        } else {
            assert(m.log == s.log.take(prev - s.base_index + n) + before.skip(n));
            assert(m.base_index + m.log.len() == prev + k) by {
                assert(prev - s.base_index + n <= s.log.len()) by {
                    if n > 0 {
                        assert(prev + 1 + (n - 1) <= s.base_index + s.log.len()) by {
                            assert(before[n - 1] == entries[n - 1]);
                        }
                    }
                }
            }
            assert(!m.conflicts_committed(e));
            assert(t.log =~= m.log.push(e));
            assert(before.skip(n).push(e) =~= entries.skip(n));
            assert(t.log =~= s.log.take(prev - s.base_index + n) + entries.skip(n));
            assert(matched(s, entries, prev, n)) by {
                assert forall|i: int| 0 <= i < n implies prev + 1 + i <= s.base_index + s.log.len()
                    && s.log[prev - s.base_index + i].term == (#[trigger] entries[i]).term by {
                    assert(before[i] == entries[i]);
                }
            }
            assert(entries[n] == before[n]);
            assert(splices_from(s, t, entries, prev, n));
        }
    }
}

/// Whether the first `n` of some entries that follow `prev` are in the log already.
pub open spec fn matched(s: RaftModel, entries: Seq<EntryModel>, prev: int, n: int) -> bool {
    &&& 0 <= n <= entries.len()
    &&& forall|i: int|
        0 <= i < n ==> prev + 1 + i <= s.base_index + s.log.len() && s.log[prev - s.base_index
            + i].term == (#[trigger] entries[i]).term
}

/// Whether the log of `t` is that of `s` with the entries that follow `prev` taken in, the first `n`
/// of which were there: where there are more, the log was kept up to them and goes on with them.
pub open spec fn splices_from(
    s: RaftModel,
    t: RaftModel,
    entries: Seq<EntryModel>,
    prev: int,
    n: int,
) -> bool {
    &&& matched(s, entries, prev, n)
    &&& t == (RaftModel { log: t.log, dirty: t.dirty, ..s })
    &&& n == entries.len() ==> t == s
    &&& n < entries.len() ==> {
        &&& prev + 1 + n > s.base_index + s.log.len() || s.log[prev - s.base_index + n].term
            != entries[n].term
        &&& t.log == s.log.take(prev - s.base_index + n) + entries.skip(n)
        &&& t.dirty
    }
}

/// Whether the log of `t` is that of `s` with the entries that follow `prev` taken in.
pub open spec fn splices(s: RaftModel, t: RaftModel, entries: Seq<EntryModel>, prev: int) -> bool {
    exists|n: int| #[trigger] splices_from(s, t, entries, prev, n)
}

/// Whether a request is one that a follower takes in: it is not of an old term, its entries follow
/// one another and none is ahead of its term, the follower holds the entry before them, and none
/// of them contradicts a committed entry.
pub open spec fn is_acceptable(s: RaftModel, req: AppendModel) -> bool {
    let prev = req.prev_log_index as int;
    &&& req.term >= s.current_term
    &&& prev + req.entries.len() <= u64::MAX
    &&& forall|i: int|
        0 <= i < req.entries.len() ==> (#[trigger] req.entries[i]).index == prev + 1 + i
            && req.entries[i].term <= req.term
    &&& s.base_index <= prev <= s.base_index + s.log.len()
    &&& prev > 0 ==> known_term(s, prev) == req.prev_log_term
    &&& forall|i: int|
        0 <= i < req.entries.len() && prev + 1 + i <= s.commit_index ==> prev + 1 + i
            <= s.base_index + s.log.len() && s.log[prev - s.base_index + i].term == (
        #[trigger] req.entries[i]).term
}

/// A follower takes an acceptable request in: its log then holds the entries of the request behind
/// those before them, which stay; an entry that contradicts one of them goes, with all behind it,
/// and nothing else does. It acknowledges up to the last of them, its commit point follows the
/// sender's as far as that, and it follows the sender with a fresh timer.
pub proof fn acceptable_entries_are_taken_in(s: RaftModel, from: Seq<char>, req: AppendModel)
    requires
        s.wf(),
        s.peers.contains(from),
        req.leader_id == from,
        is_acceptable(s, req),
    ensures
        ({
            let t = s.stepped(from, MessageModel::AppendEntries(req));
            let prev = req.prev_log_index as int;
            let end = prev + req.entries.len();
            let told = if req.leader_commit <= end {
                req.leader_commit as int
            } else {
                end
            };
            &&& exists|n: int|
                {
                    &&& #[trigger] matched(s, req.entries, prev, n)
                    &&& n == req.entries.len() ==> t.log == s.log
                    &&& n < req.entries.len() ==> (prev + 1 + n > s.base_index + s.log.len()
                        || s.log[prev - s.base_index + n].term != req.entries[n].term) && t.log
                        == s.log.take(prev - s.base_index + n) + req.entries.skip(n)
                }
            &&& forall|i: int|
                0 <= i < req.entries.len() ==> t.log[prev - s.base_index + i].term == (
                #[trigger] req.entries[i]).term
            &&& t.base_index == s.base_index
            &&& t.commit_index == if told > s.commit_index {
                told
            } else {
                s.commit_index as int
            }
            &&& t.role == Role::Follower
            &&& t.leader_id == Some(from)
            &&& t.current_term == req.term
            &&& t.election_elapsed == 0
            &&& t.out.len() == s.out.len() + 1
            &&& t.out.last().to == from
            &&& t.out.last().msg == MessageModel::AppendEntriesResp(
                AppendEntriesResp { term: req.term, success: true, match_index: end as u64 },
            )
        }),
{
    let f = s.following(req.term, Some(from));
    let prev = req.prev_log_index as int;
    splice_meaning(f, req.entries, prev);
    let u = f.spliced(req.entries).0;
    let n = choose|n: int| #[trigger] splices_from(f, u, req.entries, prev, n);
    let t = s.stepped(from, MessageModel::AppendEntries(req));
    assert(raft_model::contiguous(req));
    assert(matched(s, req.entries, prev, n));
    assert(t.log == u.log);
    assert(RaftModel::last_new(req) == prev + req.entries.len());
    if n < req.entries.len() {
        assert(prev - s.base_index + n <= s.log.len()) by {
            if n > 0 {
                assert(prev + 1 + (n - 1) <= s.base_index + s.log.len()) by {
                    assert(req.entries[n - 1].index == prev + n);
                }
            }
        }
    }
    assert forall|i: int| 0 <= i < req.entries.len() implies t.log[prev - s.base_index + i].term == (
    #[trigger] req.entries[i]).term by {
        if n < req.entries.len() {
            if i >= n {
                assert(t.log[prev - s.base_index + i] == req.entries.skip(n)[i - n]);
            } else {
                assert(t.log[prev - s.base_index + i] == s.log[prev - s.base_index + i]);
            }
        }
    }
}

/// Whether an answer to a request refuses it, in a term and with a hint.
pub open spec fn refuses(s: RaftModel, t: RaftModel, from: Seq<char>, term: u64, hint: int) -> bool {
    &&& t.out.len() == s.out.len() + 1
    &&& t.out.last().to == from
    &&& t.out.last().msg matches MessageModel::AppendEntriesResp(resp) && !resp.success && resp.term
        == term && resp.match_index == hint
}

/// A request that cannot be taken in is refused with a hint at where the sender should go back to. One
/// of an old term changes nothing. One with gaps, or that starts behind the end of the log, is told
/// where the log ends. One that starts behind an entry of another term is told to start before that,
/// and the entry goes, with all behind it, unless it is committed.
pub proof fn unacceptable_entries_are_refused(s: RaftModel, from: Seq<char>, req: AppendModel)
    requires
        s.wf(),
        s.peers.contains(from),
        req.leader_id == from,
    ensures
        ({
            let t = s.stepped(from, MessageModel::AppendEntries(req));
            let prev = req.prev_log_index as int;
            let last = s.base_index + s.log.len();
            let gaps = exists|i: int|
                0 <= i < req.entries.len() && ((#[trigger] req.entries[i]).index != prev + 1 + i
                    || req.entries[i].term > req.term);
            &&& req.term < s.current_term ==> refuses(s, t, from, s.current_term, 0) && t == (
            RaftModel { out: t.out, ..s })
            &&& req.term >= s.current_term ==> t.role == Role::Follower && t.leader_id == Some(from)
                && t.current_term == req.term && t.election_elapsed == 0
            &&& req.term >= s.current_term && prev + req.entries.len() <= u64::MAX && (gaps || prev
                > last) ==> refuses(s, t, from, req.term, last) && t.log == s.log && t.commit_index
                == s.commit_index
            &&& req.term >= s.current_term && prev + req.entries.len() <= u64::MAX && !gaps && 0
                < prev && s.base_index <= prev <= last && known_term(s, prev) != req.prev_log_term
                ==> {
                &&& refuses(s, t, from, req.term, prev - 1)
                &&& t.commit_index == s.commit_index
                &&& prev > s.commit_index ==> t.log == s.log.take(prev - s.base_index - 1)
                &&& prev <= s.commit_index ==> t.log == s.log
            }
        }),
{
    if req.term >= s.current_term {
        splice_keeps(s.following(req.term, Some(from)), req.entries);
    }
    let prev = req.prev_log_index as int;
    if prev + req.entries.len() <= u64::MAX {
        if raft_model::contiguous(req) {
            assert forall|i: int| 0 <= i < req.entries.len() implies (
            #[trigger] req.entries[i]).index == prev + 1 + i && req.entries[i].term
                <= req.term by {}
        } else {
            assert(exists|i: int|
                0 <= i < req.entries.len() && ((#[trigger] req.entries[i]).index != prev + 1 + i
                    || req.entries[i].term > req.term));
        }
    }
}

/// A message from outside the group, or one that claims to be from somebody else than it came from,
/// changes nothing.
pub proof fn impostors_change_nothing(s: RaftModel, from: Seq<char>, msg: MessageModel)
    ensures
        !s.peers.contains(from) ==> s.stepped(from, msg) == s,
        msg matches MessageModel::RequestVote(m) ==> m.candidate_id != from ==> s.stepped(from, msg)
            == s,
        msg matches MessageModel::AppendEntries(m) ==> m.leader_id != from ==> s.stepped(from, msg)
            == s,
        msg matches MessageModel::InstallSnapshot(m) ==> m.leader_id != from ==> s.stepped(
            from,
            msg,
        ) == s,
{
}

/// Votes count only while they are sought: a denied one, one of an old term, and one for what the
/// member does not stand for change nothing.
pub proof fn stray_votes_do_not_count(s: RaftModel, from: Seq<char>, resp: RequestVoteResp)
    requires
        resp.term <= s.current_term,
        !resp.granted || (resp.pre_vote && s.role != Role::PreCandidate) || (!resp.pre_vote && (
        s.role != Role::Candidate || resp.term < s.current_term)),
    ensures
        s.stepped(from, MessageModel::RequestVoteResp(resp)) == s,
{
}

/// Answers to replication count only at the leader of the term they come from.
pub proof fn stray_answers_do_not_count(
    s: RaftModel,
    from: Seq<char>,
    append: AppendEntriesResp,
    install: InstallSnapshotResp,
)
    ensures
        append.term <= s.current_term && (s.role != Role::Leader || append.term != s.current_term)
            ==> s.stepped(from, MessageModel::AppendEntriesResp(append)) == s,
        install.term <= s.current_term && (s.role != Role::Leader || install.term
            != s.current_term) ==> s.stepped(from, MessageModel::InstallSnapshotResp(install)) == s,
        s.peers.contains(from) && s.role == Role::Leader && install.term == s.current_term
            && !install.success ==> s.stepped(from, MessageModel::InstallSnapshotResp(install)) == (
        RaftModel { acked_since_check: s.acked_since_check.insert(from), ..s }),
{
}

/// A member without peers leads as soon as its timeout is over, in a new term and by its own vote.
pub proof fn a_lone_member_elects_itself(s: RaftModel)
    requires
        s.wf(),
        s.has_headroom(),
        s.role != Role::Leader,
        s.peers.len() == 0,
        s.election_elapsed + 1 >= s.randomized_election_timeout,
    ensures
        s.ticked().role == Role::Leader,
        s.ticked().current_term == s.current_term + 1,
        s.ticked().voted_for == Some(s.id),
        s.ticked().leader_id == Some(s.id),
        s.ticked().out == s.out,
        s.ticked().log == s.log.push(
            EntryModel {
                term: (s.current_term + 1) as u64,
                index: (s.base_index + s.log.len() + 1) as u64,
                command: None,
            },
        ),
{
    assert(Set::<Seq<char>>::empty().insert(s.id).len() == 1);
}

/// A vote that is given restarts the election timer, within the election window, and is to be kept.
pub proof fn given_votes_restart_the_timer(s: RaftModel, from: Seq<char>, req: VoteModel)
    requires
        s.wf(),
        s.peers.contains(from),
        req.candidate_id == from,
        !req.pre_vote,
    ensures
        ({
            let t = s.stepped(from, MessageModel::RequestVote(req));
            t.out.last().msg matches MessageModel::RequestVoteResp(resp) && (resp.granted ==> {
                &&& t.voted_for == Some(from)
                &&& t.election_elapsed == 0
                &&& t.dirty
                &&& s.cfg.election_min_ticks <= t.randomized_election_timeout
                    <= s.cfg.election_max_ticks
            })
        }),
{
    let f = if req.term > s.current_term {
        s.following(req.term, None)
    } else {
        s
    };
    let span = (s.cfg.election_max_ticks - s.cfg.election_min_ticks + 1) as u64;
    let r = raft_model::xorshift(f.rng);
    assert(r % span < span);
}

/// A message of a higher term makes any member follow in that term; only a straw poll does not.
pub proof fn higher_terms_depose(s: RaftModel, from: Seq<char>, msg: MessageModel)
    requires
        s.wf(),
        s.accepts(from, msg),
    ensures
        ({
            let t = s.stepped(from, msg);
            let term = match msg {
                MessageModel::RequestVote(m) => if m.pre_vote {
                    0
                } else {
                    m.term
                },
                MessageModel::RequestVoteResp(m) => m.term,
                MessageModel::AppendEntries(m) => m.term,
                MessageModel::AppendEntriesResp(m) => m.term,
                MessageModel::InstallSnapshot(m) => m.term,
                MessageModel::InstallSnapshotResp(m) => m.term,
            };
            term > s.current_term ==> {
                &&& t.current_term == term
                &&& t.role == Role::Follower
                &&& t.dirty
                &&& msg !is RequestVote ==> t.voted_for is None
                &&& msg is AppendEntries || msg is InstallSnapshot ==> t.leader_id == Some(from)
                &&& !(msg is AppendEntries || msg is InstallSnapshot) ==> t.leader_id is None
            }
        }),
{
    if let MessageModel::AppendEntries(req) = msg {
        splice_keeps(s.following(req.term, Some(from)), req.entries);
    }
}

proof fn splice_keeps(s: RaftModel, entries: Seq<EntryModel>)
    ensures
        ({
            let t = s.spliced(entries).0;
            &&& t == (RaftModel { log: t.log, dirty: t.dirty, ..s })
            &&& s.dirty ==> t.dirty
        }),
    decreases entries.len(),
{
    if entries.len() > 0 {
        splice_keeps(s, entries.drop_last());
    }
}

/// A member that is not the leader waits for its election timeout, and then asks every peer in a
/// straw poll whether it would be elected in the next term, without entering it.
pub proof fn timeouts_poll_first(s: RaftModel)
    requires
        s.wf(),
        s.role != Role::Leader,
        s.has_headroom(),
        s.peers.len() > 0,
    ensures
        ({
            let t = s.ticked();
            &&& s.election_elapsed + 1 < s.randomized_election_timeout ==> t == (RaftModel {
                election_elapsed: (s.election_elapsed + 1) as u64,
                ..s
            })
            &&& s.election_elapsed + 1 >= s.randomized_election_timeout ==> {
                &&& t.role == Role::PreCandidate
                &&& t.current_term == s.current_term
                &&& t.voted_for == s.voted_for
                &&& t.votes == Set::<Seq<char>>::empty().insert(s.id)
                &&& t.election_elapsed == 0
                &&& one_each(
                    s,
                    t,
                    s.peers,
                    |p: Seq<char>, m: MessageModel|
                        raft_laws::asks_for(m, s, (s.current_term + 1) as u64, true),
                )
            }
        }),
{
    assert(Set::<Seq<char>>::empty().insert(s.id).len() == 1);
}

/// A granted vote is counted. Once more than half of the group has granted a straw poll, the member
/// enters the next term, votes for itself and asks every peer for its vote.
pub proof fn a_won_poll_starts_an_election(s: RaftModel, from: Seq<char>, resp: RequestVoteResp)
    requires
        s.wf(),
        s.has_headroom(),
        s.peers.contains(from),
        s.role == Role::PreCandidate,
        resp.granted,
        resp.pre_vote,
        resp.term <= s.current_term,
    ensures
        ({
            let t = s.stepped(from, MessageModel::RequestVoteResp(resp));
            let won = is_majority(s, s.votes.insert(from).len() as int);
            &&& !won ==> t == (RaftModel { votes: s.votes.insert(from), ..s })
            &&& won ==> {
                &&& t.role == Role::Candidate
                &&& t.current_term == s.current_term + 1
                &&& t.voted_for == Some(s.id)
                &&& t.votes == Set::<Seq<char>>::empty().insert(s.id)
                &&& t.dirty
                &&& t.log == s.log && t.commit_index == s.commit_index
                &&& one_each(
                    s,
                    t,
                    s.peers,
                    |p: Seq<char>, m: MessageModel|
                        raft_laws::asks_for(m, s, (s.current_term + 1) as u64, false),
                )
            }
        }),
{
    assert(Set::<Seq<char>>::empty().insert(s.id).len() == 1);
}

/// A candidate that more than half of the group has voted for leads: it marks its term with an entry
/// without a command, takes every peer to need that entry next, and brings it to all of them.
pub proof fn a_won_election_makes_a_leader(s: RaftModel, from: Seq<char>, resp: RequestVoteResp)
    requires
        s.wf(),
        s.has_headroom(),
        s.peers.contains(from),
        s.role == Role::Candidate,
        resp.granted,
        !resp.pre_vote,
        resp.term == s.current_term,
    ensures
        ({
            let t = s.stepped(from, MessageModel::RequestVoteResp(resp));
            let won = is_majority(s, s.votes.insert(from).len() as int);
            &&& !won ==> t == (RaftModel { votes: s.votes.insert(from), ..s })
            &&& won ==> {
                &&& t.role == Role::Leader
                &&& t.leader_id == Some(s.id)
                &&& t.current_term == s.current_term
                &&& t.log == s.log.push(
                    EntryModel {
                        term: s.current_term,
                        index: (s.base_index + s.log.len() + 1) as u64,
                        command: None,
                    },
                )
                &&& t.commit_index == s.commit_index
                &&& t.dirty
                &&& forall|p: Seq<char>| #[trigger]
                    s.peers.contains(p) ==> {
                        &&& t.next_index.dom().contains(p) && t.next_index[p] == s.base_index
                            + s.log.len() + 1
                        &&& t.match_index.dom().contains(p) && t.match_index[p] == 0
                    }
                &&& t.out.len() == s.out.len() + s.peers.len()
                &&& forall|i: int|
                    0 <= i < s.peers.len() ==> (#[trigger] t.out[s.out.len() + i]).to == s.peers[i]
                        && brings_next(t, s.peers[i], t.out[s.out.len() + i].msg)
            }
        }),
{
    if is_majority(s, s.votes.insert(from).len() as int) {
        let v = RaftModel { votes: s.votes.insert(from), ..s };
        let crowned = RaftModel {
            role: Role::Leader,
            leader_id: Some(v.id),
            next_index: v.for_each_peer((v.last_index() + 1) as u64),
            match_index: v.for_each_peer(0),
            snapshot_sent: Map::empty(),
            ..v
        };
        let marked = RaftModel {
            heartbeat_elapsed: 0,
            acked_since_check: Set::empty(),
            ..crowned.appending(None)
        };
        let b = marked.timer_reset();
        assert forall|i: int| 0 <= i < s.peers.len() implies next_for(b, #[trigger] s.peers[i])
            > b.base_index by {
            assert(s.peers.contains(s.peers[i]));
        }
        replication_brings_next(b, s.peers);
        let t = s.stepped(from, MessageModel::RequestVoteResp(resp));
        assert(t == b.replicating_to(s.peers));
        assert forall|i: int| 0 <= i < s.peers.len() implies (
        #[trigger] t.out[s.out.len() + i]).to == s.peers[i] && brings_next(
            t,
            s.peers[i],
            t.out[s.out.len() + i].msg,
        ) by {
            assert(brings_next(b, s.peers[i], t.out[b.out.len() + i].msg));
        }
    }
}

/// A snapshot beyond the commit point takes the place of everything before its end: the state
/// machine is restored to it, the commit point moves to it, and of the log only what continues it
/// stays. One that is not beyond changes nothing of the log and is acknowledged all the same, and
/// one of an old term is refused.
pub proof fn newer_snapshots_are_installed(s: RaftModel, from: Seq<char>, req: InstallModel)
    requires
        s.wf(),
        s.peers.contains(from),
        req.leader_id == from,
    ensures
        ({
            let t = s.stepped(from, MessageModel::InstallSnapshot(req));
            let index = req.last_included_index as int;
            let newer = req.term >= s.current_term && index > s.commit_index;
            let continues = index <= s.base_index + s.log.len() && s.log[index - s.base_index
                - 1].term == req.last_included_term;
            &&& t.out.len() == s.out.len() + 1
            &&& t.out.last().to == from
            &&& newer ==> {
                &&& t.base_index == index
                &&& t.base_term == req.last_included_term
                &&& t.snapshot == Some(req.data)
                &&& t.commit_index == index
                &&& t.pending_restore
                &&& t.dirty
                &&& t.log == if continues {
                    s.log.skip(index - s.base_index)
                } else {
                    Seq::empty()
                }
                &&& t.out.last().msg == MessageModel::InstallSnapshotResp(
                    InstallSnapshotResp {
                        term: req.term,
                        success: true,
                        last_included_index: req.last_included_index,
                    },
                )
            }
            &&& !newer ==> t.log == s.log && t.base_index == s.base_index && t.snapshot
                == s.snapshot && t.commit_index == s.commit_index && t.pending_restore
                == s.pending_restore
            &&& !newer && req.term >= s.current_term ==> t.out.last().msg
                == MessageModel::InstallSnapshotResp(
                InstallSnapshotResp {
                    term: req.term,
                    success: true,
                    last_included_index: s.commit_index,
                },
            )
            &&& req.term < s.current_term ==> t.out.last().msg == MessageModel::InstallSnapshotResp(
                InstallSnapshotResp {
                    term: s.current_term,
                    success: false,
                    last_included_index: 0,
                },
            ) && t.leader_id == s.leader_id && t.role == s.role
            &&& req.term >= s.current_term ==> t.role == Role::Follower && t.leader_id == Some(
                from,
            ) && t.current_term == req.term && t.election_elapsed == 0
        }),
{
}

/// An acknowledged snapshot counts up to what was last sent to that peer, and no further.
pub proof fn acknowledged_snapshots_count(
    s: RaftModel,
    from: Seq<char>,
    resp: InstallSnapshotResp,
)
    requires
        s.wf(),
        s.role == Role::Leader,
        s.peers.contains(from),
        resp.term == s.current_term,
        resp.success,
        s.snapshot_sent.dom().contains(from),
    ensures
        ({
            let t = s.stepped(from, MessageModel::InstallSnapshotResp(resp));
            let sent = s.snapshot_sent[from];
            let told = if resp.last_included_index <= sent {
                resp.last_included_index
            } else {
                sent
            };
            let was = if s.match_index.dom().contains(from) {
                s.match_index[from]
            } else {
                0
            };
            &&& t.match_index.dom().contains(from) && t.match_index[from] == if told >= was {
                told
            } else {
                was
            }
            &&& t.next_index.dom().contains(from)
            &&& t.match_index[from] < u64::MAX ==> t.next_index[from] == t.match_index[from] + 1
            &&& t.acked_since_check.contains(from)
        }),
{
    let acked = RaftModel { acked_since_check: s.acked_since_check.insert(from), ..s };
    let now = raft_model::larger(
        raft_model::value_or(s.match_index, from, 0),
        raft_model::smaller(
            resp.last_included_index,
            raft_model::value_or(s.snapshot_sent, from, 0),
        ),
    );
    let a = RaftModel {
        match_index: acked.match_index.insert(from, now),
        next_index: acked.next_index.insert(from, raft_model::saturated(now + 1) as u64),
        ..acked
    };
    a.advancing().replicating_frame(a.peers);
}

/// Compaction folds the committed entries up to an index into the snapshot, and nothing where the
/// index is not committed or not beyond the last snapshot.
pub proof fn compaction_folds_committed_entries(s: RaftModel, index: u64, data: Seq<u8>)
    requires
        s.wf(),
    ensures
        ({
            let t = s.compacted(index, data);
            &&& s.base_index < index <= s.commit_index ==> {
                &&& t.base_index == index
                &&& t.base_term == s.log[index - s.base_index - 1].term
                &&& t.snapshot == Some(data)
                &&& t.log == s.log.skip(index - s.base_index)
                &&& t.dirty
            }
            &&& !(s.base_index < index <= s.commit_index) ==> t == s
            &&& t.current_term == s.current_term && t.voted_for == s.voted_for && t.commit_index
                == s.commit_index && t.role == s.role && t.last_applied == s.last_applied
        }),
{
}

/// A drain hands out everything that waits: the messages, the snapshot to restore where one was
/// installed, and the state machine up to the commit point; and what it handed out waits no more.
pub proof fn drains_hand_everything_out(s: RaftModel)
    requires
        s.wf(),
    ensures
        s.pending().messages == s.out,
        s.pending().applied_from == s.last_applied,
        s.pending().applied_upto == s.commit_index,
        s.pending_restore ==> s.pending().restore == s.snapshot,
        !s.pending_restore ==> s.pending().restore is None,
        s.dirty <==> s.pending().persist is Some,
        s.drained().out.len() == 0,
        s.drained() == (RaftModel {
            out: Seq::empty(),
            dirty: false,
            pending_restore: false,
            last_applied: s.commit_index,
            ..s
        }),
{
}

/// A member starts as a follower that knows no leader, with what it had saved and a timeout within
/// the election window.
pub proof fn members_start_as_followers(
    id: Seq<char>,
    peers: Seq<Seq<char>>,
    cfg: crate::raft::RaftConfig,
    seed: u64,
    restored: raft_model::PersistedModel,
)
    requires
        raft_model::timing_ok(cfg),
    ensures
        ({
            let s = RaftModel::fresh(id, peers, cfg, seed, restored);
            &&& s.role == Role::Follower
            &&& s.leader_id is None
            &&& s.id == id && s.peers == peers && s.cfg == cfg
            &&& s.current_term == restored.current_term
            &&& s.voted_for == restored.voted_for
            &&& s.commit_index == restored.commit_index
            &&& s.log == restored.log
            &&& s.base_index == restored.base_index && s.base_term == restored.base_term
            &&& s.snapshot == restored.snapshot
            &&& s.election_elapsed == 0
            &&& cfg.election_min_ticks <= s.randomized_election_timeout <= cfg.election_max_ticks
            &&& s.out.len() == 0 && !s.dirty
        }),
{
    let span = (cfg.election_max_ticks - cfg.election_min_ticks + 1) as u64;
    let r = raft_model::xorshift(seed | 1);
    assert(r % span < span);
}


/// What a drain hands to the state machine are the commands of the entries at their indexes.
pub proof fn drained_commands_are_entries(s: RaftModel, lo: int, hi: int)
    requires
        s.wf(),
        s.base_index <= lo,
        hi <= s.commit_index,
    ensures
        forall|k: int|
            0 <= k < s.commands_between(lo, hi).len() ==> {
                let at = (#[trigger] s.commands_between(lo, hi)[k]).0;
                &&& lo < at <= hi
                &&& s.log[at - s.base_index - 1].command == Some(s.commands_between(lo, hi)[k].1)
            },
    decreases hi - lo,
{
    if hi > lo {
        drained_commands_are_entries(s, lo, hi - 1);
        let before = s.commands_between(lo, hi - 1);
        let here = s.commands_between(lo, hi);
        assert forall|k: int| 0 <= k < here.len() implies ({
            let at = (#[trigger] here[k]).0;
            &&& lo < at <= hi
            &&& s.log[at - s.base_index - 1].command == Some(here[k].1)
        }) by {
            if k < before.len() {
                assert(here[k] == before[k]);
            }
        }
    }
}

/// The generator behind the election timeouts never runs dry, and never joins two of its courses.
pub proof fn the_generator_keeps_going(x: u64, y: u64)
    ensures
        x != 0 ==> raft_model::xorshift(x) != 0,
        x != y ==> raft_model::xorshift(x) != raft_model::xorshift(y),
{
    let a = x ^ (x << 13);
    let b = y ^ (y << 13);
    assert(x != y ==> x ^ (x << 13) != y ^ (y << 13)) by (bit_vector);
    assert(x != 0 ==> x ^ (x << 13) != 0) by (bit_vector);
    let c = a ^ (a >> 7);
    let d = b ^ (b >> 7);
    assert(a != b ==> a ^ (a >> 7) != b ^ (b >> 7)) by (bit_vector);
    assert(a != 0 ==> a ^ (a >> 7) != 0) by (bit_vector);
    assert(c != d ==> c ^ (c << 17) != d ^ (d << 17)) by (bit_vector);
    assert(c != 0 ==> c ^ (c << 17) != 0) by (bit_vector);
}

} // verus!
