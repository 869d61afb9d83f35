//! The consensus engine that replicates the control-plane command log: small, fixed-membership and
//! single-group.
//!
//! It is a pure state machine:
//!
//!   * [`Raft::tick`] advances logical time,
//!   * [`Raft::step`] consumes one inbound message,
//!   * [`Raft::propose`] (leader only) appends a command,
//!   * [`Raft::ready`] drains the side effects: messages to send, state to persist, and committed
//!     commands to apply.
//!
//! A driver keeps one ordering rule for safety: it persists what `ready()` hands back before it
//! sends the messages or applies the commands.

use crate::cluster::Command;
use crate::ids::{IdMap, IdSet};
use crate::model::NodeId;
use crate::raft_laws;
use crate::raft_model;
use crate::raft_model::{
    AddressedModel, AppendModel, EntryModel, InstallModel, MessageModel, PersistedModel, RaftModel,
    ReadyModel, VoteModel,
};
use crate::text::{copy_text_opt, copy_texts, text_eq, texts_contain};
use vstd::prelude::*;

verus! {

/// One replicated log entry. `index` is 1-based and contiguous. `command` is `None` for the entry
/// a fresh leader appends to commit its term.
#[derive(Debug)]
pub struct LogEntry {
    pub term: u64,
    pub index: u64,
    pub command: Option<Command>,
}

impl DeepView for LogEntry {
    type V = EntryModel;

    open spec fn deep_view(&self) -> EntryModel {
        EntryModel { term: self.term, index: self.index, command: self.command.deep_view() }
    }
}

impl Clone for LogEntry {
    fn clone(&self) -> (r: Self)
        ensures
            r.deep_view() == self.deep_view(),
    {
        LogEntry {
            term: self.term,
            index: self.index,
            command: match &self.command {
                Some(c) => Some(c.clone()),
                None => None,
            },
        }
    }
}

/// A copy of the entries from position `from` on.
fn copy_entries(entries: &Vec<LogEntry>, from: usize) -> (r: Vec<LogEntry>)
    requires
        from <= entries.len(),
    ensures
        r.deep_view() == entries.deep_view().skip(from as int),
{
    let mut r: Vec<LogEntry> = Vec::new();
    let mut i: usize = from;
    while i < entries.len()
        invariant
            from <= i <= entries.len(),
            r.len() == i - from,
            forall|k: int|
                0 <= k < r.len() ==> (#[trigger] r@[k]).deep_view() == entries@[k + from].deep_view(),
        decreases entries.len() - i,
    {
        r.push(entries[i].clone());
        i += 1;
    }
    assert(r.deep_view() =~= entries.deep_view().skip(from as int));
    r
}

/// A copy of optional bytes.
fn copy_bytes_opt(b: &Option<Vec<u8>>) -> (r: Option<Vec<u8>>)
    ensures
        r.deep_view() == b.deep_view(),
{
    match b {
        Some(v) => {
            let c = v.clone();
            assert(c.deep_view() =~= v.deep_view());
            Some(c)
        },
        None => None,
    }
}

/// State that must be durable.
#[derive(Debug)]
pub struct Persisted {
    pub current_term: u64,
    pub voted_for: Option<NodeId>,
    pub commit_index: u64,
    pub log: Vec<LogEntry>,
    /// Everything at or before `base_index` (term `base_term`) is compacted out of `log` and
    /// folded into `snapshot`. `0` and `None` mean that nothing is compacted yet.
    pub base_index: u64,
    pub base_term: u64,
    pub snapshot: Option<Vec<u8>>,
}

impl DeepView for Persisted {
    type V = PersistedModel;

    open spec fn deep_view(&self) -> PersistedModel {
        PersistedModel {
            current_term: self.current_term,
            voted_for: self.voted_for.deep_view(),
            commit_index: self.commit_index,
            log: self.log.deep_view(),
            base_index: self.base_index,
            base_term: self.base_term,
            snapshot: self.snapshot.deep_view(),
        }
    }
}

impl Clone for Persisted {
    fn clone(&self) -> (r: Self)
        ensures
            r.deep_view() == self.deep_view(),
    {
        let r = Persisted {
            current_term: self.current_term,
            voted_for: copy_text_opt(&self.voted_for),
            commit_index: self.commit_index,
            log: copy_entries(&self.log, 0),
            base_index: self.base_index,
            base_term: self.base_term,
            snapshot: copy_bytes_opt(&self.snapshot),
        };
        assert(r.deep_view() =~= self.deep_view());
        r
    }
}

impl Default for Persisted {
    fn default() -> (r: Self)
        ensures
            r.deep_view() == (PersistedModel {
                current_term: 0,
                voted_for: None,
                commit_index: 0,
                log: Seq::empty(),
                base_index: 0,
                base_term: 0,
                snapshot: None,
            }),
    {
        let r = Persisted {
            current_term: 0,
            voted_for: None,
            commit_index: 0,
            log: Vec::new(),
            base_index: 0,
            base_term: 0,
            snapshot: None,
        };
        assert(r.log.deep_view() =~= Seq::<EntryModel>::empty());
        r
    }
}

/// What a member is doing in its term.
#[derive(Debug, Clone, Copy, PartialEq, Eq, Structural)]
pub enum Role {
    Follower,
    /// Running a non-binding straw poll before incrementing the term, which stops a partitioned
    /// member from inflating its term and disrupting a healthy leader when it rejoins.
    PreCandidate,
    Candidate,
    Leader,
}

/// A vote request.
#[derive(Debug)]
pub struct RequestVoteReq {
    pub term: u64,
    pub candidate_id: NodeId,
    pub last_log_index: u64,
    pub last_log_term: u64,
    /// Straw-poll round: `term` is the candidate's would-be term, not yet adopted.
    pub pre_vote: bool,
}

impl DeepView for RequestVoteReq {
    type V = VoteModel;

    open spec fn deep_view(&self) -> VoteModel {
        VoteModel {
            term: self.term,
            candidate_id: self.candidate_id@,
            last_log_index: self.last_log_index,
            last_log_term: self.last_log_term,
            pre_vote: self.pre_vote,
        }
    }
}

impl Clone for RequestVoteReq {
    fn clone(&self) -> (r: Self)
        ensures
            r.deep_view() == self.deep_view(),
    {
        RequestVoteReq {
            term: self.term,
            candidate_id: self.candidate_id.clone(),
            last_log_index: self.last_log_index,
            last_log_term: self.last_log_term,
            pre_vote: self.pre_vote,
        }
    }
}

/// The answer to a vote request.
#[derive(Debug, Clone, Copy, PartialEq, Eq, Structural)]
pub struct RequestVoteResp {
    pub term: u64,
    pub granted: bool,
    /// Echo of the request's `pre_vote`, so that the vote counts in the right round.
    pub pre_vote: bool,
}

/// A replication request.
#[derive(Debug)]
pub struct AppendEntriesReq {
    pub term: u64,
    pub leader_id: NodeId,
    pub prev_log_index: u64,
    pub prev_log_term: u64,
    pub entries: Vec<LogEntry>,
    pub leader_commit: u64,
}

impl DeepView for AppendEntriesReq {
    type V = AppendModel;

    open spec fn deep_view(&self) -> AppendModel {
        AppendModel {
            term: self.term,
            leader_id: self.leader_id@,
            prev_log_index: self.prev_log_index,
            prev_log_term: self.prev_log_term,
            entries: self.entries.deep_view(),
            leader_commit: self.leader_commit,
        }
    }
}

impl Clone for AppendEntriesReq {
    fn clone(&self) -> (r: Self)
        ensures
            r.deep_view() == self.deep_view(),
    {
        let r = AppendEntriesReq {
            term: self.term,
            leader_id: self.leader_id.clone(),
            prev_log_index: self.prev_log_index,
            prev_log_term: self.prev_log_term,
            entries: copy_entries(&self.entries, 0),
            leader_commit: self.leader_commit,
        };
        assert(r.deep_view() =~= self.deep_view());
        r
    }
}

/// The answer to a replication request.
#[derive(Debug, Clone, Copy, PartialEq, Eq, Structural)]
pub struct AppendEntriesResp {
    pub term: u64,
    pub success: bool,
    /// On success the highest index the request carried or matched; on failure a hint for the
    /// leader how far to rewind.
    pub match_index: u64,
}

/// Sent to a follower that needs an entry the leader has compacted away: the serialized state
/// machine at `last_included_index`.
#[derive(Debug)]
pub struct InstallSnapshotReq {
    pub term: u64,
    pub leader_id: NodeId,
    pub last_included_index: u64,
    pub last_included_term: u64,
    pub data: Vec<u8>,
}

impl DeepView for InstallSnapshotReq {
    type V = InstallModel;

    open spec fn deep_view(&self) -> InstallModel {
        InstallModel {
            term: self.term,
            leader_id: self.leader_id@,
            last_included_index: self.last_included_index,
            last_included_term: self.last_included_term,
            data: self.data.deep_view(),
        }
    }
}

impl Clone for InstallSnapshotReq {
    fn clone(&self) -> (r: Self)
        ensures
            r.deep_view() == self.deep_view(),
    {
        let data = self.data.clone();
        assert(data.deep_view() =~= self.data.deep_view());
        InstallSnapshotReq {
            term: self.term,
            leader_id: self.leader_id.clone(),
            last_included_index: self.last_included_index,
            last_included_term: self.last_included_term,
            data,
        }
    }
}

/// The answer to a snapshot transfer.
#[derive(Debug, Clone, Copy, PartialEq, Eq, Structural)]
pub struct InstallSnapshotResp {
    pub term: u64,
    pub success: bool,
    /// The index the follower now has durably.
    pub last_included_index: u64,
}

/// A message between members.
#[derive(Debug)]
pub enum RaftMessage {
    RequestVote(RequestVoteReq),
    RequestVoteResp(RequestVoteResp),
    AppendEntries(AppendEntriesReq),
    AppendEntriesResp(AppendEntriesResp),
    InstallSnapshot(InstallSnapshotReq),
    InstallSnapshotResp(InstallSnapshotResp),
}

impl DeepView for RaftMessage {
    type V = MessageModel;

    open spec fn deep_view(&self) -> MessageModel {
        match self {
            RaftMessage::RequestVote(m) => MessageModel::RequestVote(m.deep_view()),
            RaftMessage::RequestVoteResp(m) => MessageModel::RequestVoteResp(*m),
            RaftMessage::AppendEntries(m) => MessageModel::AppendEntries(m.deep_view()),
            RaftMessage::AppendEntriesResp(m) => MessageModel::AppendEntriesResp(*m),
            RaftMessage::InstallSnapshot(m) => MessageModel::InstallSnapshot(m.deep_view()),
            RaftMessage::InstallSnapshotResp(m) => MessageModel::InstallSnapshotResp(*m),
        }
    }
}

impl Clone for RaftMessage {
    fn clone(&self) -> (r: Self)
        ensures
            r.deep_view() == self.deep_view(),
    {
        match self {
            RaftMessage::RequestVote(m) => RaftMessage::RequestVote(m.clone()),
            RaftMessage::RequestVoteResp(m) => RaftMessage::RequestVoteResp(*m),
            RaftMessage::AppendEntries(m) => RaftMessage::AppendEntries(m.clone()),
            RaftMessage::AppendEntriesResp(m) => RaftMessage::AppendEntriesResp(*m),
            RaftMessage::InstallSnapshot(m) => RaftMessage::InstallSnapshot(m.clone()),
            RaftMessage::InstallSnapshotResp(m) => RaftMessage::InstallSnapshotResp(*m),
        }
    }
}

/// An outbound message and its recipient (the sender is always the member itself).
#[derive(Debug)]
pub struct Addressed {
    pub to: NodeId,
    pub msg: RaftMessage,
}

impl DeepView for Addressed {
    type V = AddressedModel;

    open spec fn deep_view(&self) -> AddressedModel {
        AddressedModel { to: self.to@, msg: self.msg.deep_view() }
    }
}

impl Clone for Addressed {
    fn clone(&self) -> (r: Self)
        ensures
            r.deep_view() == self.deep_view(),
    {
        Addressed { to: self.to.clone(), msg: self.msg.clone() }
    }
}

/// Timing, in driver ticks. The election timeout is drawn from
/// `[election_min_ticks, election_max_ticks]` so that members do not campaign in lockstep.
#[derive(Debug, Clone, Copy, PartialEq, Eq, Structural)]
pub struct RaftConfig {
    pub heartbeat_ticks: u64,
    pub election_min_ticks: u64,
    pub election_max_ticks: u64,
}

impl Default for RaftConfig {
    /// With a tick of 50 ms: heartbeats every 150 ms, elections after 500 to 900 ms.
    fn default() -> (r: Self)
        ensures
            r == (RaftConfig {
                heartbeat_ticks: 3,
                election_min_ticks: 10,
                election_max_ticks: 18,
            }),
    {
        RaftConfig { heartbeat_ticks: 3, election_min_ticks: 10, election_max_ticks: 18 }
    }
}

/// The side effects of a `tick`, `step` or `propose`, drained by the driver.
#[derive(Debug)]
pub struct Ready {
    /// If set, persist this before sending `messages` or applying `committed`.
    pub persist: Option<Persisted>,
    /// If set, reset the state machine to these snapshot bytes before applying `committed`.
    pub restore: Option<Vec<u8>>,
    /// The index the state machine reflected before applying `committed`. Consecutive calls
    /// chain: one call's `applied_upto` is the next call's `applied_from`.
    pub applied_from: u64,
    /// The index the state machine reflects after applying `committed`.
    pub applied_upto: u64,
    /// Messages to send to peers (after persisting).
    pub messages: Vec<Addressed>,
    /// Newly committed `(log index, command)` pairs, in index order.
    pub committed: Vec<(u64, Command)>,
}

impl DeepView for Ready {
    type V = ReadyModel;

    open spec fn deep_view(&self) -> ReadyModel {
        ReadyModel {
            persist: self.persist.deep_view(),
            restore: self.restore.deep_view(),
            applied_from: self.applied_from,
            applied_upto: self.applied_upto,
            messages: self.messages.deep_view(),
            committed: self.committed.deep_view(),
        }
    }
}

/// Whether a request's entries run without gaps from just after `prev_log_index`, none of them
/// ahead of the sender's term. Everything a real leader sends does.
fn entries_are_contiguous(req: &AppendEntriesReq) -> (r: bool)
    ensures
        r == raft_model::contiguous(req.deep_view()),
{
    let mut i: usize = 0;
    let ghost model = req.deep_view();
    while i < req.entries.len()
        invariant
            i <= req.entries.len(),
            model == req.deep_view(),
            forall|k: int|
                0 <= k < i ==> {
                    &&& (#[trigger] model.entries[k]).index == raft_model::saturated(
                        req.prev_log_index + 1 + k,
                    )
                    &&& model.entries[k].term <= req.term
                },
        decreases req.entries.len() - i,
    {
        let expected: u64 = req.prev_log_index.saturating_add(1).saturating_add(i as u64);
        assert(model.entries[i as int].index == req.entries@[i as int].index);
        assert(model.entries[i as int].term == req.entries@[i as int].term);
        if req.entries[i].index != expected || req.entries[i].term > req.term {
            return false;
        }
        i += 1;
    }
    true
}

/// One member of the group.
pub struct Raft {
    id: NodeId,
    peers: Vec<NodeId>,
    cfg: RaftConfig,
    current_term: u64,
    voted_for: Option<NodeId>,
    log: Vec<LogEntry>,
    base_index: u64,
    base_term: u64,
    snapshot: Option<Vec<u8>>,
    role: Role,
    commit_index: u64,
    last_applied: u64,
    leader_id: Option<NodeId>,
    pending_restore: bool,
    votes: IdSet,
    acked_since_check: IdSet,
    next_index: IdMap<u64>,
    match_index: IdMap<u64>,
    snapshot_sent: IdMap<u64>,
    election_elapsed: u64,
    heartbeat_elapsed: u64,
    randomized_election_timeout: u64,
    rng: u64,
    out: Vec<Addressed>,
    dirty: bool,
}

impl View for Raft {
    type V = RaftModel;

    closed spec fn view(&self) -> RaftModel {
        RaftModel {
            id: self.id@,
            peers: self.peers.deep_view(),
            cfg: self.cfg,
            current_term: self.current_term,
            voted_for: self.voted_for.deep_view(),
            log: self.log.deep_view(),
            base_index: self.base_index,
            base_term: self.base_term,
            snapshot: self.snapshot.deep_view(),
            role: self.role,
            commit_index: self.commit_index,
            last_applied: self.last_applied,
            leader_id: self.leader_id.deep_view(),
            pending_restore: self.pending_restore,
            votes: self.votes@,
            acked_since_check: self.acked_since_check@,
            next_index: self.next_index@,
            match_index: self.match_index@,
            snapshot_sent: self.snapshot_sent@,
            election_elapsed: self.election_elapsed,
            heartbeat_elapsed: self.heartbeat_elapsed,
            randomized_election_timeout: self.randomized_election_timeout,
            rng: self.rng,
            out: self.out.deep_view(),
            dirty: self.dirty,
        }
    }
}

impl Clone for Raft {
    fn clone(&self) -> (r: Self)
        ensures
            r@ == self@,
    {
        let mut out: Vec<Addressed> = Vec::new();
        let mut i: usize = 0;
        while i < self.out.len()
            invariant
                i <= self.out.len(),
                out.len() == i,
                forall|k: int|
                    0 <= k < i ==> (#[trigger] out@[k]).deep_view() == self.out@[k].deep_view(),
            decreases self.out.len() - i,
        {
            out.push(self.out[i].clone());
            i += 1;
        }
        let r = Raft {
            id: self.id.clone(),
            peers: copy_texts(&self.peers),
            cfg: self.cfg,
            current_term: self.current_term,
            voted_for: copy_text_opt(&self.voted_for),
            log: copy_entries(&self.log, 0),
            base_index: self.base_index,
            base_term: self.base_term,
            snapshot: copy_bytes_opt(&self.snapshot),
            role: self.role,
            commit_index: self.commit_index,
            last_applied: self.last_applied,
            leader_id: copy_text_opt(&self.leader_id),
            pending_restore: self.pending_restore,
            votes: self.votes.copy(),
            acked_since_check: self.acked_since_check.copy(),
            next_index: self.next_index.copy(),
            match_index: self.match_index.copy(),
            snapshot_sent: self.snapshot_sent.copy(),
            election_elapsed: self.election_elapsed,
            heartbeat_elapsed: self.heartbeat_elapsed,
            randomized_election_timeout: self.randomized_election_timeout,
            rng: self.rng,
            out,
            dirty: self.dirty,
        };
        assert(r@ =~= self@);
        r
    }
}

impl Raft {
    /// A member that starts from a durable state (the default one for a fresh member). `seed`
    /// randomizes the election timeout.
    pub fn new(
        id: NodeId,
        peers: Vec<NodeId>,
        cfg: RaftConfig,
        seed: u64,
        restored: Persisted,
    ) -> (r: Self)
        requires
            raft_model::timing_ok(cfg),
            restored.deep_view().valid(),
        ensures
            r@ == RaftModel::fresh(id@, peers.deep_view(), cfg, seed, restored.deep_view()),
            r@.wf(),
    {
        let mut raft = Raft {
            id,
            peers,
            cfg,
            current_term: restored.current_term,
            voted_for: restored.voted_for,
            log: restored.log,
            base_index: restored.base_index,
            base_term: restored.base_term,
            snapshot: restored.snapshot,
            role: Role::Follower,
            commit_index: restored.commit_index,
            last_applied: restored.base_index,
            leader_id: None,
            pending_restore: false,
            votes: IdSet::new(),
            acked_since_check: IdSet::new(),
            next_index: IdMap::new(),
            match_index: IdMap::new(),
            snapshot_sent: IdMap::new(),
            election_elapsed: 0,
            heartbeat_elapsed: 0,
            randomized_election_timeout: 0,
            rng: seed | 1,
            out: Vec::new(),
            dirty: false,
        };
        assert(raft@.out =~= Seq::<AddressedModel>::empty());
        assert(raft@.durable() =~= restored.deep_view());
        raft.reset_election_timer();
        raft
    }

    /// This member's id.
    pub fn id(&self) -> (r: &NodeId)
        ensures
            r@ == self@.id,
    {
        &self.id
    }

    /// What this member is doing.
    pub fn role(&self) -> (r: Role)
        ensures
            r == self@.role,
    {
        self.role
    }

    /// The current term.
    pub fn term(&self) -> (r: u64)
        ensures
            r == self@.current_term,
    {
        self.current_term
    }

    /// Whether this member leads.
    pub fn is_leader(&self) -> (r: bool)
        ensures
            r == (self@.role == Role::Leader),
    {
        self.role == Role::Leader
    }

    /// The known leader.
    pub fn leader(&self) -> (r: Option<&NodeId>)
        ensures
            match r {
                Some(l) => self@.leader_id == Some(l@),
                None => self@.leader_id is None,
            },
    {
        match &self.leader_id {
            Some(l) => Some(l),
            None => None,
        }
    }

    /// The commit point.
    pub fn commit_index(&self) -> (r: u64)
        ensures
            r == self@.commit_index,
    {
        self.commit_index
    }

    /// The number of live log entries.
    pub fn log_len(&self) -> (r: usize)
        ensures
            r == self@.log.len(),
    {
        self.log.len()
    }

    /// The snapshot boundary.
    pub fn base_index(&self) -> (r: u64)
        ensures
            r == self@.base_index,
    {
        self.base_index
    }

    /// Whether the integers leave room for a new term and a new entry.
    pub fn has_room(&self) -> (r: bool)
        requires
            self@.last_index() <= u64::MAX,
        ensures
            r == self@.has_headroom(),
    {
        self.current_term < u64::MAX && self.last_index() < u64::MAX
    }

    /// The current durable state.
    pub fn persisted_snapshot(&self) -> (r: Persisted)
        ensures
            r.deep_view() == self@.durable(),
    {
        let r = Persisted {
            current_term: self.current_term,
            voted_for: copy_text_opt(&self.voted_for),
            commit_index: self.commit_index,
            log: copy_entries(&self.log, 0),
            base_index: self.base_index,
            base_term: self.base_term,
            snapshot: copy_bytes_opt(&self.snapshot),
        };
        assert(r.deep_view() =~= self@.durable());
        r
    }

    fn quorum(&self) -> (r: usize)
        ensures
            r == self@.quorum(),
    {
        let n: usize = self.peers.len();
        n / 2 + n % 2 + 1
    }

    fn last_index(&self) -> (r: u64)
        requires
            self@.last_index() <= u64::MAX,
        ensures
            r == self@.last_index(),
    {
        self.base_index + self.log.len() as u64
    }

    fn last_term(&self) -> (r: u64)
        ensures
            r == self@.last_term(),
    {
        if self.log.len() > 0 {
            self.log[self.log.len() - 1].term
        } else {
            self.base_term
        }
    }

    /// The position in the log of an index, unless it is compacted or beyond the end.
    fn log_slot(&self, index: u64) -> (r: Option<usize>)
        requires
            self@.last_index() <= u64::MAX,
        ensures
            match r {
                Some(slot) => self.base_index < index <= self@.last_index() && slot == index
                    - self.base_index - 1 && slot < self.log.len(),
                None => !(self.base_index < index <= self@.last_index()),
            },
    {
        if index <= self.base_index || index > self.last_index() {
            None
        } else {
            assert(index - self.base_index - 1 < self.log.len());
            Some((index - self.base_index - 1) as usize)
        }
    }

    fn term_at(&self, index: u64) -> (r: u64)
        requires
            self@.last_index() <= u64::MAX,
        ensures
            r == self@.term_at(index as int),
    {
        if index == self.base_index {
            self.base_term
        } else {
            match self.log_slot(index) {
                Some(slot) => self.log[slot].term,
                None => 0,
            }
        }
    }

    fn next_rand(&mut self) -> (r: u64)
        ensures
            r == raft_model::xorshift(old(self)@.rng),
            final(self)@ == (RaftModel { rng: r, ..old(self)@ }),
    {
        let x: u64 = self.rng;
        let a: u64 = x ^ (x << 13u32);
        let b: u64 = a ^ (a >> 7u32);
        let c: u64 = b ^ (b << 17u32);
        self.rng = c;
        c
    }

    fn reset_election_timer(&mut self)
        requires
            raft_model::timing_ok(old(self)@.cfg),
        ensures
            final(self)@ == old(self)@.timer_reset(),
            final(self)@.randomized_election_timeout <= final(self)@.cfg.election_max_ticks,
    {
        self.election_elapsed = 0;
        let span: u64 = self.cfg.election_max_ticks - self.cfg.election_min_ticks + 1;
        let r: u64 = self.next_rand();
        assert(r % span < span);
        self.randomized_election_timeout = self.cfg.election_min_ticks + r % span;
    }

    fn send(&mut self, to: &NodeId, msg: RaftMessage)
        ensures
            final(self)@ == old(self)@.sending(to@, msg.deep_view()),
    {
        let ghost before = self.out.deep_view();
        let ghost a = AddressedModel { to: to@, msg: msg.deep_view() };
        self.out.push(Addressed { to: to.clone(), msg });
        assert(self.out.deep_view() =~= before.push(a));
    }

    /// Sends the same vote request to every peer.
    fn send_to_peers(&mut self, req: &RequestVoteReq)
        ensures
            final(self)@ == old(self)@.sending_all(
                old(self)@.peers,
                MessageModel::RequestVote(req.deep_view()),
            ),
    {
        let ghost before = self@;
        let ghost msg = MessageModel::RequestVote(req.deep_view());
        let mut i: usize = 0;
        assert(before.peers.take(0).map_values(|p: Seq<char>| AddressedModel { to: p, msg })
            =~= Seq::<AddressedModel>::empty());
        assert(self@ =~= before.sending_all(before.peers.take(0), msg));
        while i < self.peers.len()
            invariant
                i <= self.peers.len(),
                self@.peers == before.peers,
                msg == MessageModel::RequestVote(req.deep_view()),
                self@ == before.sending_all(before.peers.take(i as int), msg),
            decreases before.peers.len() - i,
        {
            let p = self.peers[i].clone();
            self.send(&p, RaftMessage::RequestVote(req.clone()));
            i += 1;
            assert(before.peers[i - 1] == p@);
            assert(before.peers.take(i as int) =~= before.peers.take(i - 1).push(p@));
            assert(before.out + before.peers.take(i as int).map_values(
                |p: Seq<char>| AddressedModel { to: p, msg },
            ) =~= (before.out + before.peers.take(i - 1).map_values(
                |p: Seq<char>| AddressedModel { to: p, msg },
            )).push(AddressedModel { to: p@, msg }));
            assert(self@ =~= before.sending_all(before.peers.take(i as int), msg));
        }
        assert(before.peers.take(before.peers.len() as int) =~= before.peers);
    }

    /// Advances one logical tick: leaders heartbeat, everyone else counts down to an election.
    pub fn tick(&mut self)
        requires
            old(self)@.wf(),
            old(self)@.role != Role::Leader ==> old(self)@.has_headroom(),
        ensures
            final(self)@ == old(self)@.ticked(),
            final(self)@.wf(),
    {
        if self.role == Role::Leader {
            let ghost before = self@;
            self.heartbeat_elapsed = self.heartbeat_elapsed + 1;
            if self.heartbeat_elapsed >= self.cfg.heartbeat_ticks {
                self.heartbeat_elapsed = 0;
                self.broadcast_append();
            }
            self.election_elapsed = self.election_elapsed + 1;
            if self.election_elapsed >= self.randomized_election_timeout {
                let acked: usize = self.acked_since_check.len();
                let quorum: usize = self.quorum();
                self.acked_since_check = IdSet::new();
                if acked < quorum - 1 {
                    let term: u64 = self.current_term;
                    self.become_follower(term, None);
                } else {
                    self.reset_election_timer();
                }
            }
            return;
        }
        self.election_elapsed = self.election_elapsed + 1;
        if self.election_elapsed >= self.randomized_election_timeout {
            self.start_pre_election();
        }
    }

    fn start_pre_election(&mut self)
        requires
            old(self)@.wf_but_timer(),
            old(self)@.role != Role::Leader,
            old(self)@.has_headroom(),
        ensures
            final(self)@ == old(self)@.pre_campaigning(),
            final(self)@.wf(),
    {
        let ghost before = self@;
        self.reset_election_timer();
        self.role = Role::PreCandidate;
        let mut votes = IdSet::new();
        votes.insert(self.id.clone());
        self.votes = votes;
        let req = RequestVoteReq {
            term: self.current_term + 1,
            candidate_id: self.id.clone(),
            last_log_index: self.last_index(),
            last_log_term: self.last_term(),
            pre_vote: true,
        };
        self.send_to_peers(&req);
        self.maybe_win_pre_election();
    }

    fn maybe_win_pre_election(&mut self)
        requires
            old(self)@.wf(),
            old(self)@.role == Role::PreCandidate ==> old(self)@.has_headroom(),
        ensures
            final(self)@ == old(self)@.pre_vote_counted(),
            final(self)@.wf(),
    {
        if self.role == Role::PreCandidate && self.votes.len() >= self.quorum() {
            self.start_election();
        }
    }

    fn start_election(&mut self)
        requires
            old(self)@.wf(),
            old(self)@.has_headroom(),
        ensures
            final(self)@ == old(self)@.campaigning(),
            final(self)@.wf(),
    {
        self.current_term = self.current_term + 1;
        self.voted_for = Some(self.id.clone());
        self.dirty = true;
        self.role = Role::Candidate;
        self.leader_id = None;
        self.reset_election_timer();
        let mut votes = IdSet::new();
        votes.insert(self.id.clone());
        self.votes = votes;
        let req = RequestVoteReq {
            term: self.current_term,
            candidate_id: self.id.clone(),
            last_log_index: self.last_index(),
            last_log_term: self.last_term(),
            pre_vote: false,
        };
        self.send_to_peers(&req);
        self.maybe_win_election();
    }

    fn maybe_win_election(&mut self)
        requires
            old(self)@.wf(),
            old(self)@.role == Role::Candidate ==> old(self)@.last_index() < u64::MAX,
        ensures
            final(self)@ == old(self)@.vote_counted(),
            final(self)@.wf(),
    {
        if self.role == Role::Candidate && self.votes.len() >= self.quorum() {
            self.become_leader();
        }
    }

    /// Gives every peer the same number.
    fn number_peers(&self, n: u64) -> (r: IdMap<u64>)
        ensures
            r@ == self@.for_each_peer(n),
    {
        let mut r: IdMap<u64> = IdMap::new();
        let mut i: usize = 0;
        while i < self.peers.len()
            invariant
                i <= self.peers.len(),
                r@ == Map::new(
                    |p: Seq<char>| self@.peers.take(i as int).contains(p),
                    |p: Seq<char>| n,
                ),
            decreases self.peers.len() - i,
        {
            r.insert(self.peers[i].clone(), n);
            i += 1;
            proof {
                let now = self@.peers.take(i as int);
                let was = self@.peers.take(i - 1);
                assert(now =~= was.push(self@.peers[i - 1]));
                assert forall|p: Seq<char>| #![auto] now.contains(p) <==> was.contains(p) || p
                    == self@.peers[i - 1] by {
                    if was.contains(p) {
                        let k = was.index_of(p);
                        assert(now[k] == p);
                    }
                    if p == self@.peers[i - 1] {
                        assert(now[i - 1] == p);
                    }
                }
                assert(r@ =~= Map::new(|p: Seq<char>| now.contains(p), |p: Seq<char>| n));
            }
        }
        assert(self@.peers.take(self@.peers.len() as int) =~= self@.peers);
        r
    }

    /// Appends one entry in the current term and says its index.
    fn append_entry(&mut self, command: Option<Command>) -> (index: u64)
        requires
            old(self)@.last_index() < u64::MAX,
        ensures
            index == old(self)@.last_index() + 1,
            final(self)@ == old(self)@.appending(command.deep_view()),
    {
        let ghost before = self@;
        let index: u64 = self.last_index() + 1;
        let entry = LogEntry { term: self.current_term, index, command };
        let ghost e = entry.deep_view();
        self.log.push(entry);
        self.dirty = true;
        assert(self.log.deep_view() =~= before.log.push(e));
        index
    }

    fn become_leader(&mut self)
        requires
            old(self)@.wf(),
            old(self)@.last_index() < u64::MAX,
        ensures
            final(self)@ == old(self)@.leading(),
            final(self)@.wf(),
    {
        let ghost before = self@;
        self.role = Role::Leader;
        self.leader_id = Some(self.id.clone());
        let next: u64 = self.last_index() + 1;
        self.next_index = self.number_peers(next);
        self.match_index = self.number_peers(0);
        self.snapshot_sent = IdMap::new();
        self.append_entry(None);
        self.heartbeat_elapsed = 0;
        self.acked_since_check = IdSet::new();
        self.reset_election_timer();
        assert(self@.wf());
        self.broadcast_append();
    }

    fn become_follower(&mut self, term: u64, leader: Option<NodeId>)
        requires
            raft_model::timing_ok(old(self)@.cfg),
        ensures
            final(self)@ == old(self)@.following(term, leader.deep_view()),
            final(self)@.randomized_election_timeout <= final(self)@.cfg.election_max_ticks,
    {
        if term > self.current_term {
            self.current_term = term;
            self.voted_for = None;
            self.dirty = true;
        }
        self.role = Role::Follower;
        self.leader_id = leader;
        self.votes = IdSet::new();
        self.reset_election_timer();
    }

    fn broadcast_append(&mut self)
        requires
            old(self)@.last_index() <= u64::MAX,
        ensures
            final(self)@ == old(self)@.broadcasting(),
            final(self)@.same_but_outbox(old(self)@),
    {
        let ghost before = self@;
        let mut i: usize = 0;
        assert(before.peers.take(0) =~= Seq::<Seq<char>>::empty());
        while i < self.peers.len()
            invariant
                i <= before.peers.len(),
                self@.peers == before.peers,
                self@.last_index() <= u64::MAX,
                self@ == before.replicating_to(before.peers.take(i as int)),
            decreases self.peers.len() - i,
        {
            let p = self.peers[i].clone();
            self.send_append(&p);
            i += 1;
            assert(before.peers[i - 1] == p@);
            assert(before.peers.take(i as int).drop_last() =~= before.peers.take(i - 1));
            assert(self@.peers == before.peers);
        }
        assert(before.peers.take(before.peers.len() as int) =~= before.peers);
        proof {
            before.replicating_frame(before.peers);
        }
    }

    fn send_append(&mut self, peer: &NodeId)
        requires
            old(self)@.last_index() <= u64::MAX,
        ensures
            final(self)@ == old(self)@.replicating(peer@),
    {
        let (prev, next): (u64, Option<u64>) = match self.next_index.get(peer.as_str()) {
            Some(n) => if *n <= self.base_index {
                self.send_snapshot(peer);
                return;
            } else {
                (*n - 1, Some(*n))
            },
            None => (self.last_index(), None),
        };
        let prev_log_term: u64 = self.term_at(prev);
        let mut entries: Vec<LogEntry> = Vec::new();
        assert(entries.deep_view() =~= Seq::<EntryModel>::empty());
        if let Some(n) = next {
            if let Some(slot) = self.log_slot(n) {
                entries = copy_entries(&self.log, slot);
            }
        }
        let req = AppendEntriesReq {
            term: self.current_term,
            leader_id: self.id.clone(),
            prev_log_index: prev,
            prev_log_term,
            entries,
            leader_commit: self.commit_index,
        };
        self.send(peer, RaftMessage::AppendEntries(req));
    }

    /// Ships the current snapshot to a follower that has fallen behind the log base.
    fn send_snapshot(&mut self, peer: &NodeId)
        requires
            old(self)@.next_index.dom().contains(peer@),
            old(self)@.next_index[peer@] <= old(self)@.base_index,
        ensures
            final(self)@ == old(self)@.replicating(peer@),
    {
        let data: Vec<u8> = match &self.snapshot {
            Some(bytes) => {
                let d = bytes.clone();
                assert(d.deep_view() =~= bytes.deep_view());
                d
            },
            None => {
                return;
            },
        };
        let base: u64 = self.base_index;
        self.snapshot_sent.insert(peer.clone(), base);
        let req = InstallSnapshotReq {
            term: self.current_term,
            leader_id: self.id.clone(),
            last_included_index: self.base_index,
            last_included_term: self.base_term,
            data,
        };
        self.send(peer, RaftMessage::InstallSnapshot(req));
    }

    /// Handles one inbound message from `from`. Only configured members may drive the engine, and
    /// a request's body must claim the identity it came under.
    pub fn step(&mut self, from: NodeId, msg: RaftMessage)
        requires
            old(self)@.wf(),
            msg is RequestVoteResp ==> old(self)@.has_headroom(),
        ensures
            final(self)@ == old(self)@.stepped(from@, msg.deep_view()),
            final(self)@.wf(),
    {
        if !texts_contain(self.peers.as_slice(), from.as_str()) {
            return;
        }
        match msg {
            RaftMessage::RequestVote(req) => {
                if text_eq(req.candidate_id.as_str(), from.as_str()) {
                    self.handle_request_vote(from, req);
                }
            },
            RaftMessage::RequestVoteResp(resp) => self.handle_vote_resp(from, resp),
            RaftMessage::AppendEntries(req) => {
                if text_eq(req.leader_id.as_str(), from.as_str()) {
                    self.handle_append(from, req);
                }
            },
            RaftMessage::AppendEntriesResp(resp) => self.handle_append_resp(from, resp),
            RaftMessage::InstallSnapshot(req) => {
                if text_eq(req.leader_id.as_str(), from.as_str()) {
                    self.handle_install_snapshot(from, req);
                }
            },
            RaftMessage::InstallSnapshotResp(resp) => self.handle_install_snapshot_resp(from, resp),
        }
    }

    fn handle_request_vote(&mut self, from: NodeId, req: RequestVoteReq)
        requires
            old(self)@.wf(),
        ensures
            final(self)@ == old(self)@.vote_answered(from@, req.deep_view()),
            final(self)@.wf(),
    {
        if !req.pre_vote && req.term > self.current_term {
            self.become_follower(req.term, None);
        }
        let log_ok = req.last_log_term > self.last_term() || (req.last_log_term == self.last_term()
            && req.last_log_index >= self.last_index());
        let granted = if req.term < self.current_term {
            false
        } else if req.pre_vote {
            let no_trusted_leader = self.leader_id.is_none() || self.election_elapsed
                >= self.cfg.election_min_ticks;
            log_ok && no_trusted_leader
        } else {
            let free = match &self.voted_for {
                None => true,
                Some(v) => text_eq(v.as_str(), from.as_str()),
            };
            if free && log_ok && req.term == self.current_term {
                self.voted_for = Some(from.clone());
                self.dirty = true;
                self.reset_election_timer();
                true
            } else {
                false
            }
        };
        let resp = RequestVoteResp { term: self.current_term, granted, pre_vote: req.pre_vote };
        self.send(&from, RaftMessage::RequestVoteResp(resp));
    }

    fn handle_vote_resp(&mut self, from: NodeId, resp: RequestVoteResp)
        requires
            old(self)@.wf(),
            old(self)@.has_headroom(),
        ensures
            final(self)@ == old(self)@.vote_received(from@, resp),
            final(self)@.wf(),
    {
        if resp.term > self.current_term {
            self.become_follower(resp.term, None);
            return;
        }
        if !resp.granted {
            return;
        }
        if resp.pre_vote {
            if self.role == Role::PreCandidate {
                self.votes.insert(from);
                self.maybe_win_pre_election();
            }
        } else if self.role == Role::Candidate && resp.term == self.current_term {
            self.votes.insert(from);
            self.maybe_win_election();
        }
    }

    /// Drops the entries from `index` on, and says whether that was safe: a committed entry is
    /// never dropped, whatever a peer asks for.
    fn truncate_from(&mut self, index: u64) -> (safe: bool)
        requires
            old(self)@.last_index() <= u64::MAX,
        ensures
            safe == old(self)@.may_truncate(index as int),
            final(self)@ == old(self)@.truncated_from(index as int),
    {
        if index <= self.commit_index {
            return false;
        }
        let ghost before = self.log.deep_view();
        if let Some(slot) = self.log_slot(index) {
            self.log.truncate(slot);
            self.dirty = true;
            assert(self.log.deep_view() =~= before.take(slot as int));
        }
        true
    }

    /// Takes one entry into the log, and says whether it fits.
    fn splice_one(&mut self, entry: &LogEntry) -> (fits: bool)
        requires
            old(self)@.wf(),
            old(self)@.role != Role::Leader,
            entry.index <= old(self)@.last_index() + 1,
        ensures
            fits == !old(self)@.conflicts_committed(entry.deep_view()),
            fits ==> final(self)@ == old(self)@.entry_spliced(entry.deep_view()),
            fits ==> entry.index <= final(self)@.last_index(),
            !fits ==> final(self)@ == old(self)@,
            final(self)@.wf(),
            final(self)@.role == old(self)@.role,
    {
        let ghost pre = self@;
        let ghost e = entry.deep_view();
        let known: bool = entry.index <= self.last_index();
        if known && self.term_at(entry.index) == entry.term {
            return true;
        }
        if known && !self.truncate_from(entry.index) {
            return false;
        }
        proof {
            pre.entry_spliced_keeps(e);
        }
        let ghost cut = self.log.deep_view();
        let copy = entry.clone();
        self.log.push(copy);
        self.dirty = true;
        assert(self.log.deep_view() =~= cut.push(e));
        assert(self@ == pre.entry_spliced(e));
        true
    }

    /// Takes the entries of a batch into the log in order, and says whether all of them fit.
    fn splice(&mut self, entries: &Vec<LogEntry>) -> (complete: bool)
        requires
            old(self)@.wf(),
            old(self)@.role != Role::Leader,
            entries.len() > 0 ==> entries.deep_view()[0].index <= old(self)@.last_index() + 1,
            forall|i: int|
                0 < i < entries.len() ==> (#[trigger] entries.deep_view()[i]).index
                    == raft_model::saturated(entries.deep_view()[i - 1].index + 1),
        ensures
            (final(self)@, complete) == old(self)@.spliced(entries.deep_view()),
            final(self)@.wf(),
            complete && entries.len() > 0 ==> entries.deep_view().last().index
                <= final(self)@.last_index(),
    {
        let ghost before = self@;
        let ghost batch = entries.deep_view();
        let mut i: usize = 0;
        assert(batch.take(0) =~= Seq::<EntryModel>::empty());
        while i < entries.len()
            invariant
                i <= entries.len(),
                before == old(self)@,
                batch == entries.deep_view(),
                self@.wf(),
                self@.role != Role::Leader,
                (self@, true) == before.spliced(batch.take(i as int)),
                batch.len() > 0 && i == 0 ==> batch[0].index <= self@.last_index() + 1,
                i > 0 ==> batch[i - 1].index <= self@.last_index(),
                forall|k: int|
                    0 < k < batch.len() ==> (#[trigger] batch[k]).index == raft_model::saturated(
                        batch[k - 1].index + 1,
                    ),
            decreases entries.len() - i,
        {
            let ghost pre = self@;
            let ghost e = batch[i as int];
            assert(batch.take(i + 1).drop_last() =~= batch.take(i as int));
            assert(batch.take(i + 1).last() == e);
            assert(entries@[i as int].deep_view() == e);
            assert(e.index <= pre.last_index() + 1);
            if !self.splice_one(&entries[i]) {
                proof {
                    Self::splice_stops(before, batch, i as int);
                }
                return false;
            }
            i += 1;
        }
        assert(batch.take(batch.len() as int) =~= batch);
        true
    }

    /// Once an entry stops a batch, the rest of the batch changes nothing.
    proof fn splice_stops(before: RaftModel, batch: Seq<EntryModel>, i: int)
        requires
            0 <= i < batch.len(),
            before.spliced(batch.take(i)).1,
            before.spliced(batch.take(i)).0.conflicts_committed(batch[i]),
        ensures
            before.spliced(batch) == (before.spliced(batch.take(i)).0, false),
        decreases batch.len() - i,
    {
        let s = before.spliced(batch.take(i)).0;
        assert(batch.take(i + 1).drop_last() =~= batch.take(i));
        assert(before.spliced(batch.take(i + 1)) == (s, false));
        Self::splice_stays(before, batch, i + 1, batch.len() as int, s);
        assert(batch.take(batch.len() as int) =~= batch);
    }

    proof fn splice_stays(
        before: RaftModel,
        batch: Seq<EntryModel>,
        n: int,
        m: int,
        s: RaftModel,
    )
        requires
            0 <= n <= m <= batch.len(),
            before.spliced(batch.take(n)) == (s, false),
        ensures
            before.spliced(batch.take(m)) == (s, false),
        decreases m - n,
    {
        if n < m {
            Self::splice_stays(before, batch, n, m - 1, s);
            assert(batch.take(m).drop_last() =~= batch.take(m - 1));
        }
    }

    /// Answers a replication request. It comes in through `step`, which turns strangers away, but
    /// does no harm whoever sent it.
    pub fn handle_append(&mut self, from: NodeId, req: AppendEntriesReq)
        requires
            old(self)@.wf(),
        ensures
            final(self)@ == old(self)@.append_answered(from@, req.deep_view()),
            final(self)@.wf(),
            raft_laws::unharmed(old(self)@, final(self)@, from@, req.deep_view()),
    {
        let ghost model = req.deep_view();
        proof {
            raft_laws::appends_do_no_harm(self@, from@, model);
        }
        if req.term < self.current_term {
            let resp = AppendEntriesResp {
                term: self.current_term,
                success: false,
                match_index: 0,
            };
            self.send(&from, RaftMessage::AppendEntriesResp(resp));
            return;
        }
        self.become_follower(req.term, Some(from.clone()));
        if !entries_are_contiguous(&req) || req.prev_log_index > self.last_index() {
            let resp = AppendEntriesResp {
                term: self.current_term,
                success: false,
                match_index: self.last_index(),
            };
            self.send(&from, RaftMessage::AppendEntriesResp(resp));
            return;
        }
        if req.prev_log_index > 0 && self.term_at(req.prev_log_index) != req.prev_log_term {
            let _ = self.truncate_from(req.prev_log_index);
            let resp = AppendEntriesResp {
                term: self.current_term,
                success: false,
                match_index: req.prev_log_index - 1,
            };
            self.send(&from, RaftMessage::AppendEntriesResp(resp));
            return;
        }
        let last_new: u64 = if req.entries.len() > 0 {
            req.entries[req.entries.len() - 1].index
        } else {
            req.prev_log_index
        };
        assert(last_new == RaftModel::last_new(model));
        assert forall|i: int| 0 < i < model.entries.len() implies (#[trigger] model.entries[i]).index
            == raft_model::saturated(model.entries[i - 1].index + 1) by {
            assert(model.entries[i - 1].index == raft_model::saturated(model.prev_log_index + i));
        }
        let complete = self.splice(&req.entries);
        if complete {
            let commit: u64 = if req.leader_commit <= last_new {
                req.leader_commit
            } else {
                last_new
            };
            if commit > self.commit_index {
                self.commit_index = commit;
                self.dirty = true;
            }
            let resp = AppendEntriesResp {
                term: self.current_term,
                success: true,
                match_index: last_new,
            };
            self.send(&from, RaftMessage::AppendEntriesResp(resp));
        } else {
            let resp = AppendEntriesResp {
                term: self.current_term,
                success: false,
                match_index: self.last_index(),
            };
            self.send(&from, RaftMessage::AppendEntriesResp(resp));
        }
    }

    fn handle_append_resp(&mut self, from: NodeId, resp: AppendEntriesResp)
        requires
            old(self)@.wf(),
        ensures
            final(self)@ == old(self)@.append_acked(from@, resp),
            final(self)@.wf(),
    {
        if resp.term > self.current_term {
            self.become_follower(resp.term, None);
            return;
        }
        if self.role != Role::Leader || resp.term != self.current_term {
            return;
        }
        self.acked_since_check.insert(from.clone());
        let matched: u64 = match self.match_index.get(from.as_str()) {
            Some(m) => *m,
            None => 0,
        };
        if resp.success {
            let last: u64 = self.last_index();
            let bounded: u64 = if resp.match_index <= last {
                resp.match_index
            } else {
                last
            };
            let now: u64 = if matched >= bounded {
                matched
            } else {
                bounded
            };
            self.match_index.insert(from.clone(), now);
            self.next_index.insert(from, now.saturating_add(1));
            if self.maybe_advance_commit() {
                self.broadcast_append();
            }
        } else {
            let next: u64 = match self.next_index.get(from.as_str()) {
                Some(n) => *n,
                None => 1,
            };
            let hint: u64 = resp.match_index.saturating_add(1);
            let floor: u64 = matched.saturating_add(1);
            let rewound: u64 = if hint >= floor {
                hint
            } else {
                floor
            };
            if rewound < next {
                self.next_index.insert(from.clone(), rewound);
                self.send_append(&from);
            }
        }
    }

    fn handle_install_snapshot(&mut self, from: NodeId, req: InstallSnapshotReq)
        requires
            old(self)@.wf(),
        ensures
            final(self)@ == old(self)@.install_answered(from@, req.deep_view()),
            final(self)@.wf(),
    {
        if req.term < self.current_term {
            let resp = InstallSnapshotResp {
                term: self.current_term,
                success: false,
                last_included_index: 0,
            };
            self.send(&from, RaftMessage::InstallSnapshotResp(resp));
            return;
        }
        self.become_follower(req.term, Some(from.clone()));
        if req.last_included_index <= self.commit_index {
            let known: u64 = if self.commit_index >= self.base_index {
                self.commit_index
            } else {
                self.base_index
            };
            let resp = InstallSnapshotResp {
                term: self.current_term,
                success: true,
                last_included_index: known,
            };
            self.send(&from, RaftMessage::InstallSnapshotResp(resp));
            return;
        }
        let ghost before = self@;
        let ghost model = req.deep_view();
        if self.term_at(req.last_included_index) == req.last_included_term
            && req.last_included_index <= self.last_index() {
            assert(req.last_included_index - self.base_index <= self.log.len());
            let keep_from: usize = (req.last_included_index - self.base_index) as usize;
            self.log = self.log.split_off(keep_from);
            assert(self.log.deep_view() =~= before.log.skip(keep_from as int));
        } else {
            self.log = Vec::new();
            assert(self.log.deep_view() =~= Seq::<EntryModel>::empty());
        }
        self.base_index = req.last_included_index;
        self.base_term = req.last_included_term;
        self.snapshot = Some(req.data);
        if self.commit_index < self.base_index {
            self.commit_index = self.base_index;
        }
        self.last_applied = self.base_index;
        self.pending_restore = true;
        self.dirty = true;
        assert(self@ =~= before.installed(model));
        let resp = InstallSnapshotResp {
            term: self.current_term,
            success: true,
            last_included_index: self.base_index,
        };
        self.send(&from, RaftMessage::InstallSnapshotResp(resp));
    }

    fn handle_install_snapshot_resp(&mut self, from: NodeId, resp: InstallSnapshotResp)
        requires
            old(self)@.wf(),
        ensures
            final(self)@ == old(self)@.install_acked(from@, resp),
            final(self)@.wf(),
    {
        if resp.term > self.current_term {
            self.become_follower(resp.term, None);
            return;
        }
        if self.role != Role::Leader || resp.term != self.current_term {
            return;
        }
        self.acked_since_check.insert(from.clone());
        if resp.success {
            let matched: u64 = match self.match_index.get(from.as_str()) {
                Some(m) => *m,
                None => 0,
            };
            let boundary: u64 = match self.snapshot_sent.get(from.as_str()) {
                Some(b) => *b,
                None => 0,
            };
            let bounded: u64 = if resp.last_included_index <= boundary {
                resp.last_included_index
            } else {
                boundary
            };
            let now: u64 = if matched >= bounded {
                matched
            } else {
                bounded
            };
            self.match_index.insert(from.clone(), now);
            self.next_index.insert(from, now.saturating_add(1));
            if self.maybe_advance_commit() {
                self.broadcast_append();
            }
        }
    }

    /// The number of peers known to hold the log up to `n`.
    fn count_holders(&self, n: u64) -> (r: usize)
        ensures
            r == self@.holders(n as int),
            r <= self.peers.len(),
    {
        let ghost matched = self@.match_index;
        let ghost n_int = n as int;
        let ghost holds = |p: Seq<char>| raft_model::value_or(matched, p, 0) >= n_int;
        let mut count: usize = 0;
        let mut i: usize = 0;
        assert(self@.peers.take(0).filter(holds).len() == 0) by {
            reveal(Seq::filter);
        }
        while i < self.peers.len()
            invariant
                i <= self.peers.len(),
                count <= i,
                matched == self@.match_index,
                n_int == n as int,
                holds == |p: Seq<char>| raft_model::value_or(matched, p, 0) >= n_int,
                count == self@.peers.take(i as int).filter(holds).len(),
            decreases self.peers.len() - i,
        {
            let m: u64 = match self.match_index.get(self.peers[i].as_str()) {
                Some(m) => *m,
                None => 0,
            };
            assert(self@.peers.take(i + 1) =~= self@.peers.take(i as int).push(
                self@.peers[i as int],
            ));
            proof {
                let now = self@.peers.take(i + 1);
                assert(now.drop_last() =~= self@.peers.take(i as int));
                reveal(Seq::filter);
            }
            if m >= n {
                count += 1;
            }
            i += 1;
        }
        assert(self@.peers.take(self@.peers.len() as int) =~= self@.peers);
        count
    }

    /// Moves the commit point as far as a majority allows, and says whether it moved.
    fn maybe_advance_commit(&mut self) -> (moved: bool)
        requires
            old(self)@.wf(),
            old(self)@.role == Role::Leader,
        ensures
            moved == old(self)@.can_advance(),
            final(self)@ == old(self)@.advancing(),
            final(self)@.wf(),
    {
        let last: u64 = self.last_index();
        let mut new_commit: u64 = self.commit_index;
        let mut n: u64 = self.commit_index;
        let quorum: usize = self.quorum();
        while n < last
            invariant
                self@.wf(),
                last == self@.last_index(),
                quorum == self@.quorum(),
                self@.commit_index <= n <= last,
                self@.commit_index <= new_commit <= n,
                new_commit == self@.highest_committable(n as int),
            decreases last - n,
        {
            n += 1;
            if self.term_at(n) == self.current_term && self.count_holders(n) >= quorum - 1 {
                new_commit = n;
            }
        }
        if new_commit > self.commit_index {
            self.commit_index = new_commit;
            self.dirty = true;
            true
        } else {
            false
        }
    }

    /// Appends a command to the log (leader only). Returns its index, or the known leader so that
    /// the caller can forward.
    pub fn propose(&mut self, command: Command) -> (r: Result<u64, Option<NodeId>>)
        requires
            old(self)@.wf(),
            old(self)@.role == Role::Leader ==> old(self)@.last_index() < u64::MAX,
        ensures
            final(self)@ == old(self)@.proposed(command.deep_view()),
            final(self)@.wf(),
            match r {
                Ok(index) => old(self)@.role == Role::Leader && index == old(self)@.last_index() + 1,
                Err(leader) => old(self)@.role != Role::Leader && leader.deep_view()
                    == old(self)@.leader_id,
            },
    {
        if self.role != Role::Leader {
            return Err(copy_text_opt(&self.leader_id));
        }
        let index: u64 = self.append_entry(Some(command));
        assert(self@.wf());
        self.maybe_advance_commit();
        self.broadcast_append();
        Ok(index)
    }

    /// Compacts the log up to `index`: every entry at or before it is folded into `snapshot`, the
    /// serialized state machine as of `index`. Does nothing if `index` is not newer than the base
    /// or would discard an uncommitted entry.
    pub fn compact(&mut self, index: u64, snapshot: Vec<u8>)
        requires
            old(self)@.wf(),
        ensures
            final(self)@ == old(self)@.compacted(index, snapshot.deep_view()),
            final(self)@.wf(),
    {
        if index <= self.base_index || index > self.commit_index {
            return;
        }
        let ghost before = self@;
        let term: u64 = self.term_at(index);
        assert(index - self.base_index <= self.log.len());
        let keep_from: usize = (index - self.base_index) as usize;
        self.log = self.log.split_off(keep_from);
        assert(self.log.deep_view() =~= before.log.skip(keep_from as int));
        self.base_index = index;
        self.base_term = term;
        self.snapshot = Some(snapshot);
        self.dirty = true;
    }

    /// Drains the side effects. The driver persists `persist` (if any) before it sends `messages`
    /// or applies `committed`.
    pub fn ready(&mut self) -> (r: Ready)
        requires
            old(self)@.wf(),
        ensures
            r.deep_view() == old(self)@.pending(),
            final(self)@ == old(self)@.drained(),
            final(self)@.wf(),
    {
        let ghost before = self@;
        let mut messages: Vec<Addressed> = Vec::new();
        assert(messages.deep_view() =~= Seq::<AddressedModel>::empty());
        std::mem::swap(&mut messages, &mut self.out);
        let persist = if self.dirty {
            self.dirty = false;
            Some(self.persisted_snapshot())
        } else {
            None
        };
        let restore = if self.pending_restore {
            self.pending_restore = false;
            copy_bytes_opt(&self.snapshot)
        } else {
            None
        };
        let applied_from: u64 = self.last_applied;
        let mut committed: Vec<(u64, Command)> = Vec::new();
        assert(committed.deep_view() =~= Seq::empty());
        let ghost drained = self@;
        while self.last_applied < self.commit_index
            invariant
                before.wf(),
                drained.wf(),
                drained.log == before.log,
                drained.base_index == before.base_index,
                drained.commit_index == before.commit_index,
                self@ == (RaftModel { last_applied: self@.last_applied, ..drained }),
                applied_from <= self@.last_applied <= self@.commit_index,
                committed.deep_view() == before.commands_between(
                    applied_from as int,
                    self@.last_applied as int,
                ),
            decreases self.commit_index - self.last_applied,
        {
            self.last_applied = self.last_applied + 1;
            let ghost was = committed.deep_view();
            if let Some(slot) = self.log_slot(self.last_applied) {
                assert(self.log@[slot as int].deep_view() == before.log[slot as int]);
                if let Some(cmd) = &self.log[slot].command {
                    let c = cmd.clone();
                    let ghost pair = (self.last_applied, c.deep_view());
                    committed.push((self.last_applied, c));
                    assert(committed.deep_view() =~= was.push(pair));
                }
            }
        }
        assert(self@ =~= before.drained());
        Ready {
            persist,
            restore,
            applied_from,
            applied_upto: self.last_applied,
            messages,
            committed,
        }
    }
}

} // verus!
