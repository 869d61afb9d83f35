//! What holds of every member, whatever its peers send: properties of single events that follow
//! from the engine's exact contracts.

use crate::cluster::CommandModel;
use crate::raft::{AppendEntriesResp, Role};
use crate::raft_model;
use crate::raft_model::{AppendModel, EntryModel, MessageModel, RaftModel, VoteModel};
use vstd::prelude::*;

verus! {

/// Something that happens to a member.
pub enum Event {
    Tick,
    Step { from: Seq<char>, msg: MessageModel },
    Propose { command: CommandModel },
    Compact { index: u64, snapshot: Seq<u8> },
    Ready,
}

/// Whether the machine's integers leave room for the event.
pub open spec fn possible(s: RaftModel, e: Event) -> bool {
    match e {
        Event::Tick => s.role != Role::Leader ==> s.has_headroom(),
        Event::Step { from, msg } => msg is RequestVoteResp ==> s.has_headroom(),
        Event::Propose { command } => s.role == Role::Leader ==> s.last_index() < u64::MAX,
        _ => true,
    }
}

/// The state after the event.
pub open spec fn after(s: RaftModel, e: Event) -> RaftModel {
    match e {
        Event::Tick => s.ticked(),
        Event::Step { from, msg } => s.stepped(from, msg),
        Event::Propose { command } => s.proposed(command),
        Event::Compact { index, snapshot } => s.compacted(index, snapshot),
        Event::Ready => s.drained(),
    }
}

/// The live entry at an index.
pub open spec fn entry_at(s: RaftModel, index: int) -> EntryModel {
    s.log[index - s.base_index - 1]
}

/// Whether `t` holds every committed entry of `s` that neither has compacted away.
pub open spec fn keeps_committed(s: RaftModel, t: RaftModel) -> bool {
    forall|i: int|
        s.base_index < i && t.base_index < i <= s.commit_index ==> #[trigger] entry_at(t, i)
            == entry_at(s, i)
}

/// How the durable state of a member may move in one event.
pub open spec fn durable_progress(s: RaftModel, t: RaftModel) -> bool {
    &&& t.id == s.id
    &&& t.peers == s.peers
    &&& t.cfg == s.cfg
    &&& t.current_term >= s.current_term
    &&& t.current_term == s.current_term && s.voted_for is Some ==> t.voted_for == s.voted_for
    &&& t.commit_index >= s.commit_index
    &&& t.base_index >= s.base_index
    &&& t.commit_index <= t.last_index()
    &&& keeps_committed(s, t)
    &&& t.wf()
}

/// Whether an unsaved change of the durable state is marked as such.
pub open spec fn change_is_marked(s: RaftModel, t: RaftModel) -> bool {
    &&& t.durable() != s.durable() ==> t.dirty
    &&& s.dirty ==> t.dirty
}

proof fn spliced_progress(s: RaftModel, entries: Seq<EntryModel>)
    requires
        s.wf(),
        s.role != Role::Leader,
        entries.len() > 0 ==> entries[0].index <= s.last_index() + 1,
        forall|i: int|
            0 < i < entries.len() ==> (#[trigger] entries[i]).index == raft_model::saturated(
                entries[i - 1].index + 1,
            ),
    ensures
        durable_progress(s, s.spliced(entries).0),
        change_is_marked(s, s.spliced(entries).0),
        s.spliced(entries).0.role == s.role,
        s.spliced(entries).0.current_term == s.current_term,
        s.spliced(entries).0.commit_index == s.commit_index,
        s.spliced(entries).0.voted_for == s.voted_for,
        s.spliced(entries).1 && entries.len() > 0 ==> entries.last().index <= s.spliced(
            entries,
        ).0.last_index(),
    decreases entries.len(),
{
    if entries.len() > 0 {
        let before = entries.drop_last();
        assert forall|i: int| 0 < i < before.len() implies (#[trigger] before[i]).index
            == raft_model::saturated(before[i - 1].index + 1) by {
            assert(before[i] == entries[i]);
            assert(before[i - 1] == entries[i - 1]);
        }
        spliced_progress(s, before);
        let (m, complete) = s.spliced(before);
        let e = entries.last();
        if complete && !m.conflicts_committed(e) {
            if before.len() > 0 {
                assert(before.last() == entries[entries.len() - 2]);
            }
            m.entry_spliced_keeps(e);
            let t = m.entry_spliced(e);
            assert forall|i: int|
                s.base_index < i && t.base_index < i <= s.commit_index implies #[trigger] entry_at(
                t,
                i,
            ) == entry_at(s, i) by {
                assert(entry_at(m, i) == entry_at(s, i));
            }
        }
    }
}

proof fn append_progress(s: RaftModel, from: Seq<char>, req: AppendModel)
    requires
        s.wf(),
    ensures
        durable_progress(s, s.append_answered(from, req)),
        change_is_marked(s, s.append_answered(from, req)),
{
    if req.term >= s.current_term {
        let f = s.following(req.term, Some(from));
        assert(f.wf());
        if !raft_model::contiguous(req) || req.prev_log_index > f.last_index() {
        } else if req.prev_log_index > 0 && f.term_at(req.prev_log_index as int)
            != req.prev_log_term {
            let t = f.truncated_from(req.prev_log_index as int);
            assert(t.wf());
            assert(keeps_committed(f, t));
        } else {
            assert forall|i: int| 0 < i < req.entries.len() implies (
            #[trigger] req.entries[i]).index == raft_model::saturated(
                req.entries[i - 1].index + 1,
            ) by {
                assert(req.entries[i - 1].index == raft_model::saturated(req.prev_log_index + i));
            }
            spliced_progress(f, req.entries);
            let (m, complete) = f.spliced(req.entries);
            assert(m.wf());
            let t = s.append_answered(from, req);
            assert(t.log == m.log && t.base_index == m.base_index);
            assert forall|i: int|
                s.base_index < i && t.base_index < i <= s.commit_index implies #[trigger] entry_at(
                t,
                i,
            ) == entry_at(s, i) by {
                assert(entry_at(m, i) == entry_at(f, i));
            }
            assert(t.wf());
        }
    }
}

/// The highest committable index is the commit point or a committable one beyond it.
pub proof fn highest_committable_bounds(s: RaftModel, n: int)
    requires
        n >= s.commit_index,
    ensures
        s.commit_index <= s.highest_committable(n) <= n,
        s.highest_committable(n) > s.commit_index ==> s.committable(s.highest_committable(n)),
    decreases n - s.commit_index,
{
    if n > s.commit_index && !s.committable(n) {
        highest_committable_bounds(s, n - 1);
    }
}

proof fn advancing_progress(s: RaftModel)
    requires
        s.wf(),
    ensures
        durable_progress(s, s.advancing()),
        durable_progress(s, s.advancing_aloud()),
        change_is_marked(s, s.advancing_aloud()),
        s.advancing().broadcasting().same_but_outbox(s.advancing()),
{
    highest_committable_bounds(s, s.last_index());
    s.advancing().replicating_frame(s.advancing().peers);
}

proof fn leading_progress(s: RaftModel)
    requires
        s.wf(),
        s.last_index() < u64::MAX,
    ensures
        durable_progress(s, s.leading()),
        s.leading().dirty,
        s.leading().current_term == s.current_term,
        s.leading().voted_for == s.voted_for,
{
    let crowned = RaftModel {
        role: Role::Leader,
        leader_id: Some(s.id),
        next_index: s.for_each_peer((s.last_index() + 1) as u64),
        match_index: s.for_each_peer(0),
        snapshot_sent: Map::empty(),
        ..s
    };
    let marked = RaftModel {
        heartbeat_elapsed: 0,
        acked_since_check: Set::empty(),
        ..crowned.appending(None)
    };
    marked.timer_reset().replicating_frame(s.peers);
}

proof fn campaigning_progress(s: RaftModel)
    requires
        s.wf_but_timer(),
        s.has_headroom(),
    ensures
        durable_progress(s, s.campaigning()),
        s.campaigning().dirty,
{
    let candidate = (RaftModel {
        current_term: (s.current_term + 1) as u64,
        voted_for: Some(s.id),
        dirty: true,
        role: Role::Candidate,
        leader_id: None,
        ..s
    }).timer_reset();
    let counting = RaftModel { votes: Set::empty().insert(s.id), ..candidate };
    let asked = counting.sending_all(s.peers, counting.vote_request(counting.current_term, false));
    assert(asked.wf());
    leading_progress(asked);
}

/// No event moves a member's term, commit point or snapshot boundary back, changes a vote within
/// a term, drops or rewrites a committed entry, or breaks the invariants.
pub proof fn progress_is_durable(s: RaftModel, e: Event)
    requires
        s.wf(),
        possible(s, e),
    ensures
        durable_progress(s, after(s, e)),
{
    match e {
        Event::Tick => {
            if s.role == Role::Leader {
                (RaftModel { heartbeat_elapsed: 0, ..s }).replicating_frame(s.peers);
            } else {
                let elapsed = (s.election_elapsed + 1) as u64;
                let aged = RaftModel { election_elapsed: elapsed, ..s };
                let polled = RaftModel {
                    role: Role::PreCandidate,
                    votes: Set::empty().insert(s.id),
                    ..aged.timer_reset()
                };
                let asked = polled.sending_all(
                    s.peers,
                    aged.vote_request((s.current_term + 1) as u64, true),
                );
                campaigning_progress(asked);
            }
        },
        Event::Step { from, msg } => {
            if s.accepts(from, msg) {
                step_progress(s, from, msg);
            }
        },
        Event::Propose { command } => {
            if s.role == Role::Leader {
                let a = s.appending(Some(command));
                assert(a.wf());
                advancing_progress(a);
                let t = a.advancing().broadcasting();
                assert forall|i: int|
                    s.base_index < i && t.base_index < i
                        <= s.commit_index implies #[trigger] entry_at(t, i) == entry_at(s, i) by {
                    assert(entry_at(a.advancing(), i) == entry_at(a, i));
                }
            }
        },
        Event::Compact { index, snapshot } => {},
        Event::Ready => {},
    }
}

proof fn step_progress(s: RaftModel, from: Seq<char>, msg: MessageModel)
    requires
        s.wf(),
        possible(s, Event::Step { from, msg }),
        s.accepts(from, msg),
    ensures
        durable_progress(s, s.stepped(from, msg)),
        change_is_marked(s, s.stepped(from, msg)),
{
    match msg {
        MessageModel::RequestVote(req) => {},
        MessageModel::RequestVoteResp(resp) => {
            let v = RaftModel { votes: s.votes.insert(from), ..s };
            campaigning_progress(v);
            leading_progress(v);
        },
        MessageModel::AppendEntries(req) => {
            append_progress(s, from, req);
        },
        MessageModel::AppendEntriesResp(resp) => {
            if s.role == Role::Leader && resp.term == s.current_term {
                let acked = RaftModel {
                    acked_since_check: s.acked_since_check.insert(from),
                    ..s
                };
                let matched = raft_model::value_or(s.match_index, from, 0);
                if resp.success {
                    let now = raft_model::larger(
                        matched,
                        raft_model::smaller(resp.match_index, s.last_index() as u64),
                    );
                    advancing_progress(
                        RaftModel {
                            match_index: acked.match_index.insert(from, now),
                            next_index: acked.next_index.insert(
                                from,
                                raft_model::saturated(now + 1) as u64,
                            ),
                            ..acked
                        },
                    );
                }
            }
        },
        MessageModel::InstallSnapshot(req) => {},
        MessageModel::InstallSnapshotResp(resp) => {
            if s.role == Role::Leader && resp.term == s.current_term && resp.success {
                let acked = RaftModel {
                    acked_since_check: s.acked_since_check.insert(from),
                    ..s
                };
                let now = raft_model::larger(
                    raft_model::value_or(s.match_index, from, 0),
                    raft_model::smaller(
                        resp.last_included_index,
                        raft_model::value_or(s.snapshot_sent, from, 0),
                    ),
                );
                advancing_progress(
                    RaftModel {
                        match_index: acked.match_index.insert(from, now),
                        next_index: acked.next_index.insert(
                            from,
                            raft_model::saturated(now + 1) as u64,
                        ),
                        ..acked
                    },
                );
            }
        },
    }
}

/// Every change of the durable state is marked as unsaved until the side effects are drained, so
/// no change can miss being persisted.
pub proof fn unsaved_change_is_marked(s: RaftModel, e: Event)
    requires
        s.wf(),
        possible(s, e),
        e !is Ready,
    ensures
        change_is_marked(s, after(s, e)),
{
    match e {
        Event::Tick => {
            if s.role == Role::Leader {
                (RaftModel { heartbeat_elapsed: 0, ..s }).replicating_frame(s.peers);
                let t = s.ticked();
                assert(t.durable() =~= s.durable());
            } else {
                let elapsed = (s.election_elapsed + 1) as u64;
                let aged = RaftModel { election_elapsed: elapsed, ..s };
                let polled = RaftModel {
                    role: Role::PreCandidate,
                    votes: Set::empty().insert(s.id),
                    ..aged.timer_reset()
                };
                let asked = polled.sending_all(
                    s.peers,
                    aged.vote_request((s.current_term + 1) as u64, true),
                );
                campaigning_progress(asked);
            }
        },
        Event::Step { from, msg } => {
            if s.accepts(from, msg) {
                step_progress(s, from, msg);
            }
        },
        Event::Propose { command } => {
            if s.role == Role::Leader {
                let a = s.appending(Some(command));
                assert(a.wf());
                advancing_progress(a);
            }
        },
        _ => {},
    }
}

/// Draining hands out the durable state exactly when a change is unsaved, and leaves nothing to
/// drain: a second drain starts where the first ended and hands out nothing.
pub proof fn drains_chain(s: RaftModel)
    requires
        s.wf(),
    ensures
        s.dirty ==> s.pending().persist == Some(s.durable()),
        s.drained().durable() == s.durable(),
        s.drained().last_applied == s.pending().applied_upto,
        s.drained().pending().applied_from == s.pending().applied_upto,
        s.drained().pending().persist is None,
        s.drained().pending().restore is None,
        s.drained().pending().messages == Seq::<raft_model::AddressedModel>::empty(),
        s.drained().pending().committed == Seq::<(u64, CommandModel)>::empty(),
{
}

/// Whether the event installs a snapshot that reaches beyond the commit point.
pub open spec fn installs(s: RaftModel, e: Event) -> bool {
    e matches Event::Step { from, msg } && s.accepts(from, msg) && (msg matches
        MessageModel::InstallSnapshot(req) && req.term >= s.current_term
        && req.last_included_index > s.commit_index)
}

/// Nothing but a drain and an installed snapshot moves what counts as applied: a drain moves it to
/// the commit point, and a snapshot to its own end, from where the state machine is restored.
pub proof fn only_drains_and_snapshots_apply(s: RaftModel, e: Event)
    ensures
        e is Ready ==> after(s, e).last_applied == s.commit_index && !after(s, e).pending_restore,
        installs(s, e) ==> after(s, e).last_applied == after(s, e).base_index && after(
            s,
            e,
        ).last_applied > s.commit_index && after(s, e).pending_restore,
        e !is Ready && !installs(s, e) ==> after(s, e).last_applied == s.last_applied && after(
            s,
            e,
        ).pending_restore == s.pending_restore,
{
    match e {
        Event::Tick => {
            (RaftModel { heartbeat_elapsed: 0, ..s }).replicating_frame(s.peers);
            let elapsed = (s.election_elapsed + 1) as u64;
            let aged = RaftModel { election_elapsed: elapsed, ..s };
            let polled = RaftModel {
                role: Role::PreCandidate,
                votes: Set::empty().insert(s.id),
                ..aged.timer_reset()
            };
            let asked = polled.sending_all(
                s.peers,
                aged.vote_request((s.current_term + 1) as u64, true),
            );
            campaign_frame(asked);
        },
        Event::Propose { command } => {
            let a = s.appending(Some(command));
            a.advancing().replicating_frame(a.peers);
        },
        Event::Step { from, msg } => {
            let acked = RaftModel { acked_since_check: s.acked_since_check.insert(from), ..s };
            match msg {
                MessageModel::RequestVoteResp(resp) => {
                    let v = RaftModel { votes: s.votes.insert(from), ..s };
                    campaign_frame(v);
                    lead_frame(v);
                },
                MessageModel::AppendEntries(req) => {
                    spliced_frame(s.following(req.term, Some(from)), req.entries);
                },
                MessageModel::AppendEntriesResp(resp) => {
                    let now = raft_model::larger(
                        raft_model::value_or(s.match_index, from, 0),
                        raft_model::smaller(resp.match_index, s.last_index() as u64),
                    );
                    let a = RaftModel {
                        match_index: acked.match_index.insert(from, now),
                        next_index: acked.next_index.insert(
                            from,
                            raft_model::saturated(now + 1) as u64,
                        ),
                        ..acked
                    };
                    a.advancing().replicating_frame(a.peers);
                },
                MessageModel::InstallSnapshotResp(resp) => {
                    let now = raft_model::larger(
                        raft_model::value_or(s.match_index, from, 0),
                        raft_model::smaller(
                            resp.last_included_index,
                            raft_model::value_or(s.snapshot_sent, from, 0),
                        ),
                    );
                    let a = RaftModel {
                        match_index: acked.match_index.insert(from, now),
                        next_index: acked.next_index.insert(
                            from,
                            raft_model::saturated(now + 1) as u64,
                        ),
                        ..acked
                    };
                    a.advancing().replicating_frame(a.peers);
                },
                _ => {},
            }
        },
        _ => {},
    }
}

/// The state after some events, one after the other.
pub open spec fn after_all(s: RaftModel, events: Seq<Event>) -> RaftModel
    decreases events.len(),
{
    if events.len() == 0 {
        s
    } else {
        after(after_all(s, events.drop_last()), events.last())
    }
}

/// Whether the machine's integers leave room for the events, one after the other, and none of them
/// is a drain.
pub open spec fn runs_without_drain(s: RaftModel, events: Seq<Event>) -> bool
    decreases events.len(),
{
    events.len() == 0 || {
        &&& runs_without_drain(s, events.drop_last())
        &&& possible(after_all(s, events.drop_last()), events.last())
        &&& events.last() !is Ready
    }
}

proof fn applied_between_drains(s: RaftModel, events: Seq<Event>)
    requires
        s.wf(),
        !s.pending_restore,
        s.last_applied == s.commit_index,
        runs_without_drain(s, events),
    ensures
        ({
            let t = after_all(s, events);
            &&& t.wf()
            &&& t.commit_index >= s.commit_index
            &&& !t.pending_restore ==> t.last_applied == s.commit_index
            &&& t.pending_restore ==> t.last_applied > s.commit_index
        }),
    decreases events.len(),
{
    if events.len() > 0 {
        applied_between_drains(s, events.drop_last());
        let t = after_all(s, events.drop_last());
        progress_is_durable(t, events.last());
        only_drains_and_snapshots_apply(t, events.last());
    }
}

/// Batches of committed commands chain without gap or overlap, whatever happens between two
/// drains: the one starts where the other ended, or, where a snapshot was installed in between,
/// the state machine is restored to a point beyond it.
pub proof fn batches_chain(s: RaftModel, events: Seq<Event>)
    requires
        s.wf(),
        runs_without_drain(s.drained(), events),
    ensures
        ({
            let first = s.pending();
            let next = after_all(s.drained(), events).pending();
            &&& next.restore is None ==> next.applied_from == first.applied_upto
            &&& next.restore is Some ==> next.applied_from > first.applied_upto
            &&& next.applied_upto >= first.applied_upto
        }),
{
    applied_between_drains(s.drained(), events);
}

/// Every command handed out lies in the drained range, and the indexes ascend.
pub proof fn drained_commands_ascend(s: RaftModel, lo: int, hi: int)
    requires
        s.wf(),
        0 <= lo,
        hi <= s.commit_index,
    ensures
        forall|k: int|
            0 <= k < s.commands_between(lo, hi).len() ==> lo < (
            #[trigger] s.commands_between(lo, hi)[k]).0 <= hi,
        forall|j: int, k: int|
            0 <= j < k < s.commands_between(lo, hi).len() ==> (#[trigger] s.commands_between(
                lo,
                hi,
            )[j]).0 < (#[trigger] s.commands_between(lo, hi)[k]).0,
    decreases hi - lo,
{
    if hi > lo {
        drained_commands_ascend(s, lo, hi - 1);
        let before = s.commands_between(lo, hi - 1);
        let here = s.commands_between(lo, hi);
        assert forall|k: int| 0 <= k < here.len() implies lo < (#[trigger] here[k]).0 <= hi by {
            if k < before.len() {
                assert(here[k] == before[k]);
            }
        }
        assert forall|j: int, k: int| 0 <= j < k < here.len() implies (#[trigger] here[j]).0 < (
        #[trigger] here[k]).0 by {
            assert(here[j] == before[j]);
            if k < before.len() {
                assert(here[k] == before[k]);
            }
        }
    }
}

/// Every live committed entry with a command is handed out when its range is drained.
pub proof fn drained_commands_complete(s: RaftModel, lo: int, hi: int, i: int)
    requires
        s.wf(),
        0 <= lo < i <= hi <= s.commit_index,
        s.base_index < i,
        entry_at(s, i).command is Some,
    ensures
        s.commands_between(lo, hi).contains((i as u64, entry_at(s, i).command->0)),
    decreases hi - lo,
{
    let here = s.commands_between(lo, hi);
    let before = s.commands_between(lo, hi - 1);
    if i == hi {
        assert(here.last() == (i as u64, entry_at(s, i).command->0));
    } else {
        drained_commands_complete(s, lo, hi - 1, i);
        let k = choose|k: int|
            0 <= k < before.len() && before[k] == (i as u64, entry_at(s, i).command->0);
        assert(here[k] == before[k]);
    }
}

/// A member that restarts from what was persisted has the same durable state: it cannot vote
/// twice in a term, and resumes applying right after its snapshot.
pub proof fn restart_restores(s: RaftModel, seed: u64)
    requires
        s.wf(),
    ensures
        RaftModel::fresh(s.id, s.peers, s.cfg, seed, s.durable()).durable() == s.durable(),
        RaftModel::fresh(s.id, s.peers, s.cfg, seed, s.durable()).last_applied == s.base_index,
        RaftModel::fresh(s.id, s.peers, s.cfg, seed, s.durable()).role == Role::Follower,
        RaftModel::fresh(s.id, s.peers, s.cfg, seed, s.durable()).wf(),
{
    let span = (s.cfg.election_max_ticks - s.cfg.election_min_ticks + 1) as u64;
    let r = raft_model::xorshift(seed | 1);
    assert(r % span < span);
}

/// A message from outside the configured group, or a request whose body claims another identity
/// than the one it came under, changes nothing.
pub proof fn strangers_change_nothing(s: RaftModel, from: Seq<char>, msg: MessageModel)
    requires
        !s.peers.contains(from) || (msg.claimed_sender() is Some && msg.claimed_sender() != Some(
            from,
        )),
    ensures
        s.stepped(from, msg) == s,
{
}

/// A straw poll changes neither the role nor anything durable of the member that answers it.
pub proof fn straw_poll_is_harmless(s: RaftModel, from: Seq<char>, req: VoteModel)
    requires
        req.pre_vote,
    ensures
        s.vote_answered(from, req).durable() == s.durable(),
        s.vote_answered(from, req).role == s.role,
        s.vote_answered(from, req).leader_id == s.leader_id,
{
}

/// A follower that trusts a leader it heard from within the election window refuses a straw poll,
/// so a flapping member cannot push a healthy leader out.
pub proof fn trusted_leader_is_not_polled_out(s: RaftModel, from: Seq<char>, req: VoteModel)
    requires
        req.pre_vote,
        s.leader_id is Some,
        s.election_elapsed < s.cfg.election_min_ticks,
    ensures
        s.vote_answered(from, req).out.last().msg matches MessageModel::RequestVoteResp(resp)
            && !resp.granted,
{
}

/// A follower commits no further than the highest index the request carried or matched.
pub proof fn follower_commits_only_replicated(s: RaftModel, from: Seq<char>, req: AppendModel)
    requires
        s.wf(),
    ensures
        s.append_answered(from, req).commit_index <= raft_model::larger(
            s.commit_index,
            RaftModel::last_new(req),
        ),
{
    append_progress(s, from, req);
    if req.term >= s.current_term {
        let f = s.following(req.term, Some(from));
        if raft_model::contiguous(req) && req.prev_log_index <= f.last_index() {
            assert forall|i: int| 0 < i < req.entries.len() implies (
            #[trigger] req.entries[i]).index == raft_model::saturated(
                req.entries[i - 1].index + 1,
            ) by {
                assert(req.entries[i - 1].index == raft_model::saturated(req.prev_log_index + i));
            }
            spliced_progress(f, req.entries);
        }
    }
}

/// Whether a replication request has left a member at `t` that was at `s` before, without harm: no
/// committed entry is dropped or changed, the commit point neither moves back nor passes the end
/// of the log, the log's indexes still follow one another, and a request of an old term is refused
/// without effect.
pub open spec fn unharmed(s: RaftModel, t: RaftModel, from: Seq<char>, req: AppendModel) -> bool {
    &&& t.commit_index >= s.commit_index
    &&& t.commit_index <= t.last_index()
    &&& t.base_index == s.base_index
    &&& forall|i: int|
        s.base_index < i <= s.commit_index ==> #[trigger] entry_at(t, i) == entry_at(s, i)
    &&& forall|i: int| 0 <= i < t.log.len() ==> (#[trigger] t.log[i]).index == t.base_index + 1 + i
    &&& req.term < s.current_term ==> t == s.sending(
        from,
        MessageModel::AppendEntriesResp(
            AppendEntriesResp { term: s.current_term, success: false, match_index: 0 },
        ),
    )
}

/// No replication request, crafted or not, harms a member.
pub proof fn appends_do_no_harm(s: RaftModel, from: Seq<char>, req: AppendModel)
    requires
        s.wf(),
    ensures
        unharmed(s, s.append_answered(from, req), from, req),
{
    append_progress(s, from, req);
    spliced_frame(s.following(req.term, Some(from)), req.entries);
    let t = s.append_answered(from, req);
    assert forall|i: int| s.base_index < i <= s.commit_index implies #[trigger] entry_at(t, i)
        == entry_at(s, i) by {
        assert(t.base_index == s.base_index);
    }
}

/// A success acknowledges exactly the highest index the request carried or matched, which the
/// follower then holds; entries beyond it are not acknowledged.
pub proof fn acknowledgement_is_exact(s: RaftModel, from: Seq<char>, req: AppendModel)
    requires
        s.wf(),
    ensures
        ({
            let t = s.append_answered(from, req);
            &&& t.out.len() == s.out.len() + 1
            &&& t.out.last().to == from
            &&& t.out.last().msg matches MessageModel::AppendEntriesResp(resp) && {
                &&& resp.term == t.current_term
                &&& resp.success ==> resp.match_index == RaftModel::last_new(req)
                    && resp.match_index <= t.last_index()
            }
        }),
{
    if req.term >= s.current_term {
        let f = s.following(req.term, Some(from));
        if raft_model::contiguous(req) && req.prev_log_index <= f.last_index() {
            assert forall|i: int| 0 < i < req.entries.len() implies (
            #[trigger] req.entries[i]).index == raft_model::saturated(
                req.entries[i - 1].index + 1,
            ) by {
                assert(req.entries[i - 1].index == raft_model::saturated(req.prev_log_index + i));
            }
            spliced_progress(f, req.entries);
            spliced_outbox(f, req.entries);
        }
    }
}

proof fn spliced_outbox(s: RaftModel, entries: Seq<EntryModel>)
    ensures
        s.spliced(entries).0.out == s.out,
    decreases entries.len(),
{
    if entries.len() > 0 {
        spliced_outbox(s, entries.drop_last());
    }
}

/// The positions a leader knows of its peers never move back while it leads, and never pass the
/// end of its log.
pub proof fn replication_positions_only_advance(s: RaftModel, e: Event, p: Seq<char>)
    requires
        s.wf(),
        possible(s, e),
        s.role == Role::Leader,
        after(s, e).role == Role::Leader,
        s.match_index.dom().contains(p),
    ensures
        after(s, e).current_term == s.current_term,
        after(s, e).match_index.dom().contains(p),
        s.match_index[p] <= after(s, e).match_index[p] <= after(s, e).last_index(),
{
    progress_is_durable(s, e);
    leader_frame(s, e);
    assert(s.match_index[p] <= after(s, e).match_index[p]);
}

/// The log of a leader only grows while it leads: nothing in it is dropped or rewritten.
pub proof fn leader_log_only_grows(s: RaftModel, e: Event, i: int)
    requires
        s.wf(),
        possible(s, e),
        s.role == Role::Leader,
        after(s, e).role == Role::Leader,
        s.base_index < i <= s.last_index(),
        after(s, e).base_index < i,
    ensures
        i <= after(s, e).last_index(),
        entry_at(after(s, e), i) == entry_at(s, i),
{
    leader_frame(s, e);
}

/// A leader moves the commit point only onto an entry of its own term that a majority holds.
pub proof fn leader_commits_by_majority(s: RaftModel, e: Event)
    requires
        s.wf(),
        possible(s, e),
        s.role == Role::Leader,
        after(s, e).role == Role::Leader,
        after(s, e).commit_index > s.commit_index,
    ensures
        ({
            let t = after(s, e);
            &&& t.term_at(t.commit_index as int) == t.current_term
            &&& t.holders(t.commit_index as int) + 1 >= t.quorum()
        }),
{
    leader_frame(s, e);
    match e {
        Event::Propose { command } => {
            let a = s.appending(Some(command));
            highest_committable_bounds(a, a.last_index());
            a.advancing().replicating_frame(a.peers);
        },
        Event::Step { from, msg } => {
            let acked = RaftModel { acked_since_check: s.acked_since_check.insert(from), ..s };
            match msg {
                MessageModel::AppendEntries(req) => {
                    append_role(s, from, req);
                },
                MessageModel::AppendEntriesResp(resp) => {
                    let now = raft_model::larger(
                        raft_model::value_or(s.match_index, from, 0),
                        raft_model::smaller(resp.match_index, s.last_index() as u64),
                    );
                    let a = RaftModel {
                        match_index: acked.match_index.insert(from, now),
                        next_index: acked.next_index.insert(
                            from,
                            raft_model::saturated(now + 1) as u64,
                        ),
                        ..acked
                    };
                    highest_committable_bounds(a, a.last_index());
                    a.advancing().replicating_frame(a.peers);
                },
                MessageModel::InstallSnapshotResp(resp) => {
                    let now = raft_model::larger(
                        raft_model::value_or(s.match_index, from, 0),
                        raft_model::smaller(
                            resp.last_included_index,
                            raft_model::value_or(s.snapshot_sent, from, 0),
                        ),
                    );
                    let a = RaftModel {
                        match_index: acked.match_index.insert(from, now),
                        next_index: acked.next_index.insert(
                            from,
                            raft_model::saturated(now + 1) as u64,
                        ),
                        ..acked
                    };
                    highest_committable_bounds(a, a.last_index());
                    a.advancing().replicating_frame(a.peers);
                },
                _ => {},
            }
        },
        _ => {
            (RaftModel { heartbeat_elapsed: 0, ..s }).replicating_frame(s.peers);
        },
    }
}

/// What stays as it is while a member leads.
spec fn leads_on(s: RaftModel, t: RaftModel) -> bool {
    &&& t.current_term == s.current_term
    &&& t.last_index() >= s.last_index()
    &&& forall|i: int|
        s.base_index < i <= s.last_index() && t.base_index < i ==> #[trigger] entry_at(t, i)
            == entry_at(s, i)
    &&& forall|p: Seq<char>|
        #![trigger t.match_index[p]]
        s.match_index.dom().contains(p) ==> t.match_index.dom().contains(p) && s.match_index[p]
            <= t.match_index[p]
}

proof fn leader_frame(s: RaftModel, e: Event)
    requires
        s.wf(),
        possible(s, e),
        s.role == Role::Leader,
        after(s, e).role == Role::Leader,
    ensures
        leads_on(s, after(s, e)),
{
    match e {
        Event::Tick => {
            (RaftModel { heartbeat_elapsed: 0, ..s }).replicating_frame(s.peers);
        },
        Event::Propose { command } => {
            let a = s.appending(Some(command));
            a.advancing().replicating_frame(a.peers);
        },
        Event::Step { from, msg } => {
            let acked = RaftModel { acked_since_check: s.acked_since_check.insert(from), ..s };
            match msg {
                MessageModel::AppendEntries(req) => {
                    if s.accepts(from, msg) && req.term >= s.current_term {
                        let f = s.following(req.term, Some(from));
                        assert forall|i: int|
                            raft_model::contiguous(req) && 0 < i < req.entries.len() implies (
                        #[trigger] req.entries[i]).index == raft_model::saturated(
                            req.entries[i - 1].index + 1,
                        ) by {
                            assert(req.entries[i - 1].index == raft_model::saturated(
                                req.prev_log_index + i,
                            ));
                        }
                        if raft_model::contiguous(req) && req.prev_log_index <= f.last_index() {
                            spliced_progress(f, req.entries);
                        }
                    }
                },
                MessageModel::AppendEntriesResp(resp) => {
                    let now = raft_model::larger(
                        raft_model::value_or(s.match_index, from, 0),
                        raft_model::smaller(resp.match_index, s.last_index() as u64),
                    );
                    let a = RaftModel {
                        match_index: acked.match_index.insert(from, now),
                        next_index: acked.next_index.insert(
                            from,
                            raft_model::saturated(now + 1) as u64,
                        ),
                        ..acked
                    };
                    a.advancing().replicating_frame(a.peers);
                },
                MessageModel::InstallSnapshotResp(resp) => {
                    let now = raft_model::larger(
                        raft_model::value_or(s.match_index, from, 0),
                        raft_model::smaller(
                            resp.last_included_index,
                            raft_model::value_or(s.snapshot_sent, from, 0),
                        ),
                    );
                    let a = RaftModel {
                        match_index: acked.match_index.insert(from, now),
                        next_index: acked.next_index.insert(
                            from,
                            raft_model::saturated(now + 1) as u64,
                        ),
                        ..acked
                    };
                    a.advancing().replicating_frame(a.peers);
                },
                _ => {},
            }
        },
        _ => {},
    }
}

/// A failed replication answer that does not move the next entry back sends nothing: the retry
/// waits for the next heartbeat.
pub proof fn no_progress_waits_for_heartbeat(
    s: RaftModel,
    from: Seq<char>,
    resp: AppendEntriesResp,
)
    requires
        s.role == Role::Leader,
        resp.term == s.current_term,
        !resp.success,
        resp.match_index + 1 >= raft_model::value_or(s.next_index, from, 1),
    ensures
        s.append_acked(from, resp).out == s.out,
        s.append_acked(from, resp).next_index == s.next_index,
{
}

/// A member only becomes leader in an election in which a majority of votes were counted for it.
pub proof fn leaders_have_a_majority(s: RaftModel, e: Event)
    requires
        s.wf(),
        possible(s, e),
        s.role != Role::Leader,
        after(s, e).role == Role::Leader,
    ensures
        after(s, e).votes.len() >= after(s, e).quorum(),
        after(s, e).voted_for == Some(s.id) || after(s, e).voted_for == s.voted_for,
{
    match e {
        Event::Tick => {
            let elapsed = (s.election_elapsed + 1) as u64;
            let aged = RaftModel { election_elapsed: elapsed, ..s };
            let polled = RaftModel {
                role: Role::PreCandidate,
                votes: Set::empty().insert(s.id),
                ..aged.timer_reset()
            };
            let asked = polled.sending_all(
                s.peers,
                aged.vote_request((s.current_term + 1) as u64, true),
            );
            campaign_frame(asked);
        },
        Event::Step { from, msg } => {
            let v = RaftModel { votes: s.votes.insert(from), ..s };
            campaign_frame(v);
            lead_frame(v);
            if let MessageModel::AppendEntries(req) = msg {
                append_role(s, from, req);
            }
        },
        _ => {},
    }
}

proof fn append_role(s: RaftModel, from: Seq<char>, req: AppendModel)
    ensures
        s.append_answered(from, req).role == if req.term < s.current_term {
            s.role
        } else {
            Role::Follower
        },
{
    let f = s.following(req.term, Some(from));
    spliced_frame(f, req.entries);
}

proof fn spliced_frame(s: RaftModel, entries: Seq<EntryModel>)
    ensures
        s.spliced(entries).0.role == s.role,
        s.spliced(entries).0.base_index == s.base_index,
        s.spliced(entries).0.last_applied == s.last_applied,
        s.spliced(entries).0.pending_restore == s.pending_restore,
    decreases entries.len(),
{
    if entries.len() > 0 {
        spliced_frame(s, entries.drop_last());
    }
}

proof fn lead_frame(s: RaftModel)
    ensures
        s.leading().votes == s.votes,
        s.leading().peers == s.peers,
        s.leading().voted_for == s.voted_for,
        s.leading().last_applied == s.last_applied,
        s.leading().pending_restore == s.pending_restore,
{
    let crowned = RaftModel {
        role: Role::Leader,
        leader_id: Some(s.id),
        next_index: s.for_each_peer((s.last_index() + 1) as u64),
        match_index: s.for_each_peer(0),
        snapshot_sent: Map::empty(),
        ..s
    };
    let marked = RaftModel {
        heartbeat_elapsed: 0,
        acked_since_check: Set::empty(),
        ..crowned.appending(None)
    };
    marked.timer_reset().replicating_frame(s.peers);
}

proof fn campaign_frame(s: RaftModel)
    ensures
        s.campaigning().role == Role::Leader ==> s.campaigning().votes.len()
            >= s.campaigning().quorum(),
        s.campaigning().voted_for == Some(s.id),
        s.campaigning().last_applied == s.last_applied,
        s.campaigning().pending_restore == s.pending_restore,
{
    let candidate = (RaftModel {
        current_term: (s.current_term + 1) as u64,
        voted_for: Some(s.id),
        dirty: true,
        role: Role::Candidate,
        leader_id: None,
        ..s
    }).timer_reset();
    let counting = RaftModel { votes: Set::empty().insert(s.id), ..candidate };
    let asked = counting.sending_all(s.peers, counting.vote_request(counting.current_term, false));
    lead_frame(asked);
}

/// A leader that has not heard from a majority within one election timeout steps down.
pub proof fn isolated_leader_steps_down(s: RaftModel)
    requires
        s.wf(),
        s.role == Role::Leader,
        s.election_elapsed + 1 >= s.randomized_election_timeout,
        s.acked_since_check.len() + 1 < s.quorum(),
    ensures
        s.ticked().role == Role::Follower,
        s.ticked().leader_id is None,
        s.ticked().current_term == s.current_term,
{
    (RaftModel { heartbeat_elapsed: 0, ..s }).replicating_frame(s.peers);
}

/// Compaction keeps the term at every index from the new boundary on, and the entries after it.
pub proof fn compaction_keeps_suffix(s: RaftModel, index: u64, snapshot: Seq<u8>, i: int)
    requires
        s.wf(),
        s.base_index < index <= s.commit_index,
        index <= i <= s.last_index(),
    ensures
        s.compacted(index, snapshot).term_at(i) == s.term_at(i),
        s.compacted(index, snapshot).last_index() == s.last_index(),
        i > index ==> entry_at(s.compacted(index, snapshot), i) == entry_at(s, i),
{
}


/// The term of the last entry a member holds, or of its snapshot where it holds none.
pub open spec fn end_term(s: RaftModel) -> u64 {
    if s.log.len() > 0 {
        s.log[s.log.len() - 1].term
    } else {
        s.base_term
    }
}

/// The answer to a vote request is the one new message, it goes to the candidate, and it says yes
/// exactly where the request is not of an old term, the candidate's log ends in a higher term or
/// in the same term at no lower index, and, for a real vote, the member has voted for nobody else
/// in that term. A straw poll is also refused while a leader is being heard from. Only a vote that
/// is given is remembered.
pub proof fn votes_follow_the_logs(s: RaftModel, from: Seq<char>, req: VoteModel)
    requires
        s.peers.contains(from),
        req.candidate_id == from,
    ensures
        ({
            let t = s.stepped(from, MessageModel::RequestVote(req));
            let newer = req.term > s.current_term;
            let up_to_date = req.last_log_term > end_term(s) || (req.last_log_term == end_term(s)
                && req.last_log_index >= s.base_index + s.log.len());
            let free = newer || s.voted_for is None || s.voted_for == Some(from);
            let unled = s.leader_id is None || s.election_elapsed >= s.cfg.election_min_ticks;
            let yes = req.term >= s.current_term && up_to_date && if req.pre_vote {
                unled
            } else {
                free
            };
            &&& t.out.len() == s.out.len() + 1
            &&& t.out.take(s.out.len() as int) == s.out
            &&& t.out.last().to == from
            &&& t.out.last().msg matches MessageModel::RequestVoteResp(resp) && {
                &&& resp.granted == yes
                &&& resp.pre_vote == req.pre_vote
                &&& resp.term == t.current_term
            }
            &&& t.current_term == if newer && !req.pre_vote {
                req.term
            } else {
                s.current_term
            }
            &&& t.voted_for == if req.pre_vote {
                s.voted_for
            } else if yes {
                Some(from)
            } else if newer {
                None
            } else {
                s.voted_for
            }
            &&& newer && !req.pre_vote ==> t.role == Role::Follower && t.leader_id is None
            &&& !newer || req.pre_vote ==> t.role == s.role && t.leader_id == s.leader_id
            &&& t.log == s.log && t.base_index == s.base_index && t.base_term == s.base_term
            &&& t.commit_index == s.commit_index
            &&& t.voted_for != s.voted_for || t.current_term != s.current_term ==> t.dirty
        }),
{
    let t = s.stepped(from, MessageModel::RequestVote(req));
    assert(t.out.take(s.out.len() as int) =~= s.out);
}

/// A request for votes says where the candidate's log ends.
pub open spec fn asks_for(m: MessageModel, s: RaftModel, term: u64, pre_vote: bool) -> bool {
    m matches MessageModel::RequestVote(req) && {
        &&& req.term == term
        &&& req.candidate_id == s.id
        &&& req.last_log_index == s.base_index + s.log.len()
        &&& req.last_log_term == end_term(s)
        &&& req.pre_vote == pre_vote
    }
}

/// Of any two members at least one may be elected by the other: in a new term, what the one asks
/// the other for is granted, or the other way round.
pub proof fn one_of_two_can_be_elected(
    a: RaftModel,
    b: RaftModel,
    term: u64,
    from_a: VoteModel,
    from_b: VoteModel,
)
    requires
        a.peers.contains(b.id),
        b.peers.contains(a.id),
        term > a.current_term,
        term > b.current_term,
        asks_for(MessageModel::RequestVote(from_a), a, term, false),
        asks_for(MessageModel::RequestVote(from_b), b, term, false),
    ensures
        ({
            let at_b = b.stepped(a.id, MessageModel::RequestVote(from_a)).out.last().msg;
            let at_a = a.stepped(b.id, MessageModel::RequestVote(from_b)).out.last().msg;
            ||| at_b matches MessageModel::RequestVoteResp(resp) && resp.granted
            ||| at_a matches MessageModel::RequestVoteResp(resp) && resp.granted
        }),
{
    votes_follow_the_logs(b, a.id, from_a);
    votes_follow_the_logs(a, b.id, from_b);
}

} // verus!
