//! The mathematical model of the consensus engine: what its state is, and how each event changes
//! it. The executable engine in [`crate::raft`] is proved to follow these definitions exactly.

use crate::cluster::CommandModel;
use crate::raft::{AppendEntriesResp, InstallSnapshotResp, RaftConfig, RequestVoteResp, Role};
use vstd::prelude::*;

verus! {

/// One log entry.
#[verifier::ext_equal]
pub struct EntryModel {
    pub term: u64,
    pub index: u64,
    pub command: Option<CommandModel>,
}

/// The durable part of the state.
#[verifier::ext_equal]
pub struct PersistedModel {
    pub current_term: u64,
    pub voted_for: Option<Seq<char>>,
    pub commit_index: u64,
    pub log: Seq<EntryModel>,
    pub base_index: u64,
    pub base_term: u64,
    pub snapshot: Option<Seq<u8>>,
}

impl PersistedModel {
    /// The index of the last entry.
    pub open spec fn last_index(self) -> int {
        self.base_index + self.log.len()
    }

    /// What recovery guarantees of a durable state: the log continues the snapshot without gaps,
    /// the commit point lies between the snapshot and the end of the log, and a compacted log has
    /// the snapshot that stands for the entries it lost.
    pub open spec fn valid(self) -> bool {
        &&& self.base_index <= self.commit_index <= self.last_index() <= u64::MAX
        &&& forall|i: int|
            0 <= i < self.log.len() ==> (#[trigger] self.log[i]).index == self.base_index + 1 + i
        &&& self.base_index > 0 ==> self.snapshot is Some
    }
}

/// A vote request.
#[verifier::ext_equal]
pub struct VoteModel {
    pub term: u64,
    pub candidate_id: Seq<char>,
    pub last_log_index: u64,
    pub last_log_term: u64,
    pub pre_vote: bool,
}

/// A replication request.
#[verifier::ext_equal]
pub struct AppendModel {
    pub term: u64,
    pub leader_id: Seq<char>,
    pub prev_log_index: u64,
    pub prev_log_term: u64,
    pub entries: Seq<EntryModel>,
    pub leader_commit: u64,
}

/// A snapshot transfer.
#[verifier::ext_equal]
pub struct InstallModel {
    pub term: u64,
    pub leader_id: Seq<char>,
    pub last_included_index: u64,
    pub last_included_term: u64,
    pub data: Seq<u8>,
}

/// A message between members.
#[verifier::ext_equal]
pub enum MessageModel {
    RequestVote(VoteModel),
    RequestVoteResp(RequestVoteResp),
    AppendEntries(AppendModel),
    AppendEntriesResp(AppendEntriesResp),
    InstallSnapshot(InstallModel),
    InstallSnapshotResp(InstallSnapshotResp),
}

impl MessageModel {
    /// The identity a request's body claims; responses carry none.
    pub open spec fn claimed_sender(self) -> Option<Seq<char>> {
        match self {
            MessageModel::RequestVote(req) => Some(req.candidate_id),
            MessageModel::AppendEntries(req) => Some(req.leader_id),
            MessageModel::InstallSnapshot(req) => Some(req.leader_id),
            _ => None,
        }
    }
}

/// An outbound message and its recipient.
#[verifier::ext_equal]
pub struct AddressedModel {
    pub to: Seq<char>,
    pub msg: MessageModel,
}

/// The side effects drained in one go.
#[verifier::ext_equal]
pub struct ReadyModel {
    pub persist: Option<PersistedModel>,
    pub restore: Option<Seq<u8>>,
    pub applied_from: u64,
    pub applied_upto: u64,
    pub messages: Seq<AddressedModel>,
    pub committed: Seq<(u64, CommandModel)>,
}

/// One step of the xorshift generator that randomizes election timeouts.
pub open spec fn xorshift(x: u64) -> u64 {
    let a = x ^ (x << 13);
    let b = a ^ (a >> 7);
    b ^ (b << 17)
}

/// Whether a batch runs without gaps from just after `prev_log_index`, with no entry ahead of the
/// sender's term. Indexes saturate at the machine limit.
pub open spec fn contiguous(req: AppendModel) -> bool {
    forall|i: int|
        0 <= i < req.entries.len() ==> {
            &&& (#[trigger] req.entries[i]).index == saturated(req.prev_log_index + 1 + i)
            &&& req.entries[i].term <= req.term
        }
}

/// `n`, or the largest index there is.
pub open spec fn saturated(n: int) -> int {
    if n <= u64::MAX {
        n
    } else {
        u64::MAX as int
    }
}

/// The larger of two numbers.
pub open spec fn larger(a: u64, b: u64) -> u64 {
    if a >= b {
        a
    } else {
        b
    }
}

/// The smaller of two numbers.
pub open spec fn smaller(a: u64, b: u64) -> u64 {
    if a <= b {
        a
    } else {
        b
    }
}

/// The state of one member.
#[verifier::ext_equal]
pub struct RaftModel {
    pub id: Seq<char>,
    /// The other members.
    pub peers: Seq<Seq<char>>,
    pub cfg: RaftConfig,
    pub current_term: u64,
    pub voted_for: Option<Seq<char>>,
    /// The live entries, the first of them at `base_index + 1`.
    pub log: Seq<EntryModel>,
    pub base_index: u64,
    pub base_term: u64,
    /// The state machine as of `base_index`.
    pub snapshot: Option<Seq<u8>>,
    pub role: Role,
    pub commit_index: u64,
    pub last_applied: u64,
    pub leader_id: Option<Seq<char>>,
    pub pending_restore: bool,
    pub votes: Set<Seq<char>>,
    pub acked_since_check: Set<Seq<char>>,
    pub next_index: Map<Seq<char>, u64>,
    pub match_index: Map<Seq<char>, u64>,
    /// The boundary of the last snapshot shipped to each peer in this leadership.
    pub snapshot_sent: Map<Seq<char>, u64>,
    pub election_elapsed: u64,
    pub heartbeat_elapsed: u64,
    pub randomized_election_timeout: u64,
    pub rng: u64,
    pub out: Seq<AddressedModel>,
    pub dirty: bool,
}

/// The value a map gives `k`, or `fallback`.
pub open spec fn value_or(m: Map<Seq<char>, u64>, k: Seq<char>, fallback: u64) -> u64 {
    if m.dom().contains(k) {
        m[k]
    } else {
        fallback
    }
}

/// How many of `peers` a map gives at least `n`.
pub open spec fn count_holders(peers: Seq<Seq<char>>, matched: Map<Seq<char>, u64>, n: int) -> nat {
    peers.filter(|p: Seq<char>| value_or(matched, p, 0) >= n).len()
}

/// The timing a member can run on: a non-empty election window.
pub open spec fn timing_ok(cfg: RaftConfig) -> bool {
    &&& cfg.election_min_ticks <= cfg.election_max_ticks
    &&& cfg.election_max_ticks - cfg.election_min_ticks < u64::MAX
}

impl RaftModel {
    /// The index of the last entry.
    pub open spec fn last_index(self) -> int {
        self.base_index + self.log.len()
    }

    /// The term of the last entry, or of the snapshot when no entry is live.
    pub open spec fn last_term(self) -> u64 {
        if self.log.len() > 0 {
            self.log.last().term
        } else {
            self.base_term
        }
    }

    /// The term at an index: `base_term` at the snapshot boundary, the entry's term within the
    /// live log, 0 elsewhere.
    pub open spec fn term_at(self, index: int) -> u64 {
        if index == self.base_index {
            self.base_term
        } else if self.base_index < index <= self.last_index() {
            self.log[index - self.base_index - 1].term
        } else {
            0
        }
    }

    /// A majority of the group, this member included.
    pub open spec fn quorum(self) -> nat {
        (self.peers.len() + 1) / 2 + 1
    }

    /// The durable part of this state.
    pub open spec fn durable(self) -> PersistedModel {
        PersistedModel {
            current_term: self.current_term,
            voted_for: self.voted_for,
            commit_index: self.commit_index,
            log: self.log,
            base_index: self.base_index,
            base_term: self.base_term,
            snapshot: self.snapshot,
        }
    }

    /// What every operation keeps.
    pub open spec fn wf(self) -> bool {
        &&& self.wf_but_timer()
        &&& self.election_elapsed == 0 || self.election_elapsed < self.randomized_election_timeout
    }

    /// What every operation keeps, but for the election timer, which may be about to fire.
    pub open spec fn wf_but_timer(self) -> bool {
        &&& timing_ok(self.cfg)
        &&& self.durable().valid()
        &&& self.last_applied <= self.commit_index
        &&& self.pending_restore ==> self.snapshot is Some
        &&& self.heartbeat_elapsed == 0 || self.heartbeat_elapsed < self.cfg.heartbeat_ticks
        &&& self.randomized_election_timeout <= self.cfg.election_max_ticks
        &&& self.role == Role::Leader ==> forall|p: Seq<char>|
            #![trigger self.match_index[p]]
            self.match_index.dom().contains(p) ==> self.match_index[p] <= self.last_index()
        &&& forall|p: Seq<char>|
            #![trigger self.snapshot_sent[p]]
            self.snapshot_sent.dom().contains(p) ==> self.snapshot_sent[p] <= self.base_index
    }

    /// Whether a new term and a new entry still fit the machine's integers.
    pub open spec fn has_headroom(self) -> bool {
        self.current_term < u64::MAX && self.last_index() < u64::MAX
    }

    /// The state of a member that starts from a durable state.
    pub open spec fn fresh(
        id: Seq<char>,
        peers: Seq<Seq<char>>,
        cfg: RaftConfig,
        seed: u64,
        restored: PersistedModel,
    ) -> RaftModel {
        (RaftModel {
            id,
            peers,
            cfg,
            current_term: restored.current_term,
            voted_for: restored.voted_for,
            log: restored.log,
            base_index: restored.base_index,
            base_term: restored.base_term,
            snapshot: restored.snapshot,
            role: Role::Follower,
            commit_index: restored.commit_index,
            last_applied: restored.base_index,
            leader_id: None,
            pending_restore: false,
            votes: Set::empty(),
            acked_since_check: Set::empty(),
            next_index: Map::empty(),
            match_index: Map::empty(),
            snapshot_sent: Map::empty(),
            election_elapsed: 0,
            heartbeat_elapsed: 0,
            randomized_election_timeout: 0,
            rng: seed | 1,
            out: Seq::empty(),
            dirty: false,
        }).timer_reset()
    }

    /// The election timer starts over with a new random timeout out of the election window.
    pub open spec fn timer_reset(self) -> RaftModel {
        let rng = xorshift(self.rng);
        let span = (self.cfg.election_max_ticks - self.cfg.election_min_ticks + 1) as u64;
        RaftModel {
            election_elapsed: 0,
            rng,
            randomized_election_timeout: (self.cfg.election_min_ticks + rng % span) as u64,
            ..self
        }
    }

    /// One more message waits to be sent.
    pub open spec fn sending(self, to: Seq<char>, msg: MessageModel) -> RaftModel {
        RaftModel { out: self.out.push(AddressedModel { to, msg }), ..self }
    }

    /// The same message waits to be sent to each of `to`.
    pub open spec fn sending_all(self, to: Seq<Seq<char>>, msg: MessageModel) -> RaftModel {
        RaftModel {
            out: self.out + to.map_values(|p: Seq<char>| AddressedModel { to: p, msg }),
            ..self
        }
    }

    /// Follows `leader` in `term`, adopting the term if it is newer.
    pub open spec fn following(self, term: u64, leader: Option<Seq<char>>) -> RaftModel {
        let adopted = if term > self.current_term {
            RaftModel { current_term: term, voted_for: None, dirty: true, ..self }
        } else {
            self
        };
        (RaftModel {
            role: Role::Follower,
            leader_id: leader,
            votes: Set::empty(),
            ..adopted
        }).timer_reset()
    }

    /// The vote request of this member for `term`.
    pub open spec fn vote_request(self, term: u64, pre_vote: bool) -> MessageModel {
        MessageModel::RequestVote(
            VoteModel {
                term,
                candidate_id: self.id,
                last_log_index: self.last_index() as u64,
                last_log_term: self.last_term(),
                pre_vote,
            },
        )
    }

    /// A straw poll for the next term: nothing a peer can see changes before a majority agrees.
    pub open spec fn pre_campaigning(self) -> RaftModel {
        let polled = (RaftModel {
            role: Role::PreCandidate,
            votes: Set::empty().insert(self.id),
            ..self.timer_reset()
        });
        polled.sending_all(
            self.peers,
            self.vote_request((self.current_term + 1) as u64, true),
        ).pre_vote_counted()
    }

    /// Campaigns once the straw poll has a majority.
    pub open spec fn pre_vote_counted(self) -> RaftModel {
        if self.role == Role::PreCandidate && self.votes.len() >= self.quorum() {
            self.campaigning()
        } else {
            self
        }
    }

    /// A real election: a new term, this member's vote for itself, and a request to every peer.
    pub open spec fn campaigning(self) -> RaftModel {
        let candidate = (RaftModel {
            current_term: (self.current_term + 1) as u64,
            voted_for: Some(self.id),
            dirty: true,
            role: Role::Candidate,
            leader_id: None,
            ..self
        }).timer_reset();
        let counting = RaftModel { votes: Set::empty().insert(self.id), ..candidate };
        counting.sending_all(
            self.peers,
            counting.vote_request(counting.current_term, false),
        ).vote_counted()
    }

    /// Leads once the election has a majority.
    pub open spec fn vote_counted(self) -> RaftModel {
        if self.role == Role::Candidate && self.votes.len() >= self.quorum() {
            self.leading()
        } else {
            self
        }
    }

    /// A map that gives every peer the same number.
    pub open spec fn for_each_peer(self, n: u64) -> Map<Seq<char>, u64> {
        Map::new(|p: Seq<char>| self.peers.contains(p), |p: Seq<char>| n)
    }

    /// One more entry at the end of the log, in the current term.
    pub open spec fn appending(self, command: Option<CommandModel>) -> RaftModel {
        RaftModel {
            log: self.log.push(
                EntryModel {
                    term: self.current_term,
                    index: (self.last_index() + 1) as u64,
                    command,
                },
            ),
            dirty: true,
            ..self
        }
    }

    /// Takes over the group: replication starts at the end of the log, and an entry without a
    /// command marks the term.
    pub open spec fn leading(self) -> RaftModel {
        let crowned = RaftModel {
            role: Role::Leader,
            leader_id: Some(self.id),
            next_index: self.for_each_peer((self.last_index() + 1) as u64),
            match_index: self.for_each_peer(0),
            snapshot_sent: Map::empty(),
            ..self
        };
        let marked = RaftModel {
            heartbeat_elapsed: 0,
            acked_since_check: Set::empty(),
            ..crowned.appending(None)
        };
        marked.timer_reset().broadcasting()
    }

    /// The replication request for `peer` when the next entry it needs is at `next`.
    pub open spec fn append_request(self, next: int) -> MessageModel {
        MessageModel::AppendEntries(
            AppendModel {
                term: self.current_term,
                leader_id: self.id,
                prev_log_index: (next - 1) as u64,
                prev_log_term: self.term_at(next - 1),
                entries: if next <= self.last_index() {
                    self.log.skip(next - self.base_index - 1)
                } else {
                    Seq::empty()
                },
                leader_commit: self.commit_index,
            },
        )
    }

    /// Replication to one peer: entries from the next one it needs, or the snapshot when that
    /// entry is compacted away.
    pub open spec fn replicating(self, peer: Seq<char>) -> RaftModel {
        let next = if self.next_index.dom().contains(peer) {
            self.next_index[peer] as int
        } else {
            self.last_index() + 1
        };
        if next > self.base_index {
            self.sending(peer, self.append_request(next))
        } else if self.snapshot is Some {
            let shipped = RaftModel {
                snapshot_sent: self.snapshot_sent.insert(peer, self.base_index),
                ..self
            };
            shipped.sending(
                peer,
                MessageModel::InstallSnapshot(
                    InstallModel {
                        term: self.current_term,
                        leader_id: self.id,
                        last_included_index: self.base_index,
                        last_included_term: self.base_term,
                        data: self.snapshot->0,
                    },
                ),
            )
        } else {
            self
        }
    }

    /// Replication to each of `to`, in order.
    pub open spec fn replicating_to(self, to: Seq<Seq<char>>) -> RaftModel
        decreases to.len(),
    {
        if to.len() == 0 {
            self
        } else {
            self.replicating_to(to.drop_last()).replicating(to.last())
        }
    }

    /// Whether this state differs from `s` at most in what waits to be sent, where a recorded
    /// snapshot boundary is one that `s` records or the current one.
    pub open spec fn same_but_outbox(self, s: RaftModel) -> bool {
        &&& self == (RaftModel { out: self.out, snapshot_sent: self.snapshot_sent, ..s })
        &&& s.out.is_prefix_of(self.out)
        &&& forall|p: Seq<char>|
            #![trigger self.snapshot_sent[p]]
            self.snapshot_sent.dom().contains(p) ==> {
                ||| self.snapshot_sent[p] == s.base_index
                ||| s.snapshot_sent.dom().contains(p) && self.snapshot_sent[p]
                    == s.snapshot_sent[p]
            }
    }

    /// Replication changes nothing but what waits to be sent.
    pub proof fn replicating_frame(self, to: Seq<Seq<char>>)
        ensures
            self.replicating_to(to).same_but_outbox(self),
        decreases to.len(),
    {
        if to.len() > 0 {
            self.replicating_frame(to.drop_last());
        }
    }

    /// Replication to every peer.
    pub open spec fn broadcasting(self) -> RaftModel {
        self.replicating_to(self.peers)
    }

    /// How many peers are known to hold the log up to `n`.
    pub open spec fn holders(self, n: int) -> nat {
        count_holders(self.peers, self.match_index, n)
    }

    /// Whether a majority holds the entry at `n`, and the entry is of the current term.
    pub open spec fn committable(self, n: int) -> bool {
        self.term_at(n) == self.current_term && self.holders(n) + 1 >= self.quorum()
    }

    /// The highest committable index up to `n`, or the commit point when there is none above it.
    pub open spec fn highest_committable(self, n: int) -> int
        decreases n - self.commit_index,
    {
        if n <= self.commit_index {
            self.commit_index as int
        } else if self.committable(n) {
            n
        } else {
            self.highest_committable(n - 1)
        }
    }

    /// Whether a majority allows the commit point to move.
    pub open spec fn can_advance(self) -> bool {
        self.highest_committable(self.last_index()) > self.commit_index
    }

    /// The commit point moves as far as a majority allows.
    pub open spec fn advancing(self) -> RaftModel {
        if self.can_advance() {
            RaftModel {
                commit_index: self.highest_committable(self.last_index()) as u64,
                dirty: true,
                ..self
            }
        } else {
            self
        }
    }

    /// The commit point moves as far as a majority allows, and a move is announced.
    pub open spec fn advancing_aloud(self) -> RaftModel {
        if self.can_advance() {
            self.advancing().broadcasting()
        } else {
            self
        }
    }

    /// One tick of logical time.
    pub open spec fn ticked(self) -> RaftModel {
        if self.role == Role::Leader {
            let beat = (self.heartbeat_elapsed + 1) as u64;
            let sent = if beat >= self.cfg.heartbeat_ticks {
                (RaftModel { heartbeat_elapsed: 0, ..self }).broadcasting()
            } else {
                RaftModel { heartbeat_elapsed: beat, ..self }
            };
            let elapsed = (self.election_elapsed + 1) as u64;
            let aged = RaftModel { election_elapsed: elapsed, ..sent };
            if elapsed >= self.randomized_election_timeout {
                let checked = RaftModel { acked_since_check: Set::empty(), ..aged };
                if self.acked_since_check.len() + 1 < self.quorum() {
                    checked.following(self.current_term, None)
                } else {
                    checked.timer_reset()
                }
            } else {
                aged
            }
        } else {
            let elapsed = (self.election_elapsed + 1) as u64;
            let aged = RaftModel { election_elapsed: elapsed, ..self };
            if elapsed >= self.randomized_election_timeout {
                aged.pre_campaigning()
            } else {
                aged
            }
        }
    }

    /// Whether a candidate's log is at least as up to date as this member's.
    pub open spec fn log_not_behind(self, req: VoteModel) -> bool {
        ||| req.last_log_term > self.last_term()
        ||| req.last_log_term == self.last_term() && req.last_log_index >= self.last_index()
    }

    /// A vote request is answered.
    pub open spec fn vote_answered(self, from: Seq<char>, req: VoteModel) -> RaftModel {
        let s = if !req.pre_vote && req.term > self.current_term {
            self.following(req.term, None)
        } else {
            self
        };
        let granted = if req.term < s.current_term {
            false
        } else if req.pre_vote {
            s.log_not_behind(req) && (s.leader_id is None || s.election_elapsed
                >= s.cfg.election_min_ticks)
        } else {
            s.log_not_behind(req) && req.term == s.current_term && (s.voted_for is None
                || s.voted_for == Some(from))
        };
        let voted = if granted && !req.pre_vote {
            (RaftModel { voted_for: Some(from), dirty: true, ..s }).timer_reset()
        } else {
            s
        };
        voted.sending(
            from,
            MessageModel::RequestVoteResp(
                RequestVoteResp { term: s.current_term, granted, pre_vote: req.pre_vote },
            ),
        )
    }

    /// A vote is counted.
    pub open spec fn vote_received(self, from: Seq<char>, resp: RequestVoteResp) -> RaftModel {
        if resp.term > self.current_term {
            self.following(resp.term, None)
        } else if !resp.granted {
            self
        } else if resp.pre_vote {
            if self.role == Role::PreCandidate {
                (RaftModel { votes: self.votes.insert(from), ..self }).pre_vote_counted()
            } else {
                self
            }
        } else if self.role == Role::Candidate && resp.term == self.current_term {
            (RaftModel { votes: self.votes.insert(from), ..self }).vote_counted()
        } else {
            self
        }
    }

    /// Whether entries from `index` on may be dropped: never a committed one.
    pub open spec fn may_truncate(self, index: int) -> bool {
        index > self.commit_index
    }

    /// The entries from `index` on are dropped, unless one of them is committed.
    pub open spec fn truncated_from(self, index: int) -> RaftModel {
        if self.may_truncate(index) && self.base_index < index <= self.last_index() {
            RaftModel { log: self.log.take(index - self.base_index - 1), dirty: true, ..self }
        } else {
            self
        }
    }

    /// Whether `entry` conflicts with a committed one.
    pub open spec fn conflicts_committed(self, entry: EntryModel) -> bool {
        &&& entry.index <= self.last_index()
        &&& self.term_at(entry.index as int) != entry.term
        &&& !self.may_truncate(entry.index as int)
    }

    /// One entry takes its place in the log: an equal one stays, a conflicting one goes with all
    /// that follows it.
    pub open spec fn entry_spliced(self, entry: EntryModel) -> RaftModel {
        if entry.index <= self.last_index() && self.term_at(entry.index as int) == entry.term {
            self
        } else {
            let s = if entry.index <= self.last_index() {
                self.truncated_from(entry.index as int)
            } else {
                self
            };
            RaftModel { log: s.log.push(entry), dirty: true, ..s }
        }
    }

    /// A follower that takes an entry in keeps its invariants.
    pub proof fn entry_spliced_keeps(self, entry: EntryModel)
        requires
            self.wf(),
            self.role != Role::Leader,
            entry.index <= self.last_index() + 1,
            !self.conflicts_committed(entry),
        ensures
            self.entry_spliced(entry).wf(),
            self.entry_spliced(entry).role == self.role,
            entry.index <= self.entry_spliced(entry).last_index(),
    {
        let t = self.entry_spliced(entry);
        if !(entry.index <= self.last_index() && self.term_at(entry.index as int) == entry.term) {
            assert(entry.index > self.commit_index);
            assert(t.last_index() == entry.index);
            assert forall|i: int| 0 <= i < t.log.len() implies (#[trigger] t.log[i]).index
                == t.base_index + 1 + i by {
                if i < t.log.len() - 1 {
                    assert(t.log[i] == self.log[i]);
                }
            }
        }
    }

    /// The entries take their places in order, up to the first that conflicts with a committed
    /// one; says whether all of them did.
    pub open spec fn spliced(self, entries: Seq<EntryModel>) -> (RaftModel, bool)
        decreases entries.len(),
    {
        if entries.len() == 0 {
            (self, true)
        } else {
            let (s, complete) = self.spliced(entries.drop_last());
            if !complete || s.conflicts_committed(entries.last()) {
                (s, false)
            } else {
                (s.entry_spliced(entries.last()), true)
            }
        }
    }

    /// The answer to a replication request.
    pub open spec fn append_answer(self, success: bool, match_index: u64) -> MessageModel {
        MessageModel::AppendEntriesResp(
            AppendEntriesResp { term: self.current_term, success, match_index },
        )
    }

    /// The highest index a replication request carries or matches.
    pub open spec fn last_new(req: AppendModel) -> u64 {
        if req.entries.len() > 0 {
            req.entries.last().index
        } else {
            req.prev_log_index
        }
    }

    /// A replication request is answered. A success acknowledges the highest index the request
    /// carries or matches and no more, and moves the commit point no further than that.
    pub open spec fn append_answered(self, from: Seq<char>, req: AppendModel) -> RaftModel {
        if req.term < self.current_term {
            self.sending(from, self.append_answer(false, 0))
        } else {
            let s = self.following(req.term, Some(from));
            if !contiguous(req) || req.prev_log_index > s.last_index() {
                s.sending(from, s.append_answer(false, s.last_index() as u64))
            } else if req.prev_log_index > 0 && s.term_at(req.prev_log_index as int)
                != req.prev_log_term {
                s.truncated_from(req.prev_log_index as int).sending(
                    from,
                    s.append_answer(false, (req.prev_log_index - 1) as u64),
                )
            } else {
                let (t, complete) = s.spliced(req.entries);
                if complete {
                    let commit = smaller(req.leader_commit, Self::last_new(req));
                    let u = if commit > t.commit_index {
                        RaftModel { commit_index: commit, dirty: true, ..t }
                    } else {
                        t
                    };
                    u.sending(from, u.append_answer(true, Self::last_new(req)))
                } else {
                    t.sending(from, t.append_answer(false, t.last_index() as u64))
                }
            }
        }
    }

    /// A replication answer arrives. A success never moves the peer's position back nor past the
    /// end of the log. A failure that does not move the next entry back waits for the next
    /// heartbeat.
    pub open spec fn append_acked(self, from: Seq<char>, resp: AppendEntriesResp) -> RaftModel {
        if resp.term > self.current_term {
            self.following(resp.term, None)
        } else if self.role != Role::Leader || resp.term != self.current_term {
            self
        } else {
            let s = RaftModel {
                acked_since_check: self.acked_since_check.insert(from),
                ..self
            };
            let matched = value_or(s.match_index, from, 0);
            if resp.success {
                let now = larger(matched, smaller(resp.match_index, s.last_index() as u64));
                (RaftModel {
                    match_index: s.match_index.insert(from, now),
                    next_index: s.next_index.insert(from, saturated(now + 1) as u64),
                    ..s
                }).advancing_aloud()
            } else {
                let next = value_or(s.next_index, from, 1);
                let rewound = larger(
                    saturated(resp.match_index + 1) as u64,
                    saturated(matched + 1) as u64,
                );
                if rewound < next {
                    (RaftModel {
                        next_index: s.next_index.insert(from, rewound),
                        ..s
                    }).replicating(from)
                } else {
                    s
                }
            }
        }
    }

    /// The answer to a snapshot transfer.
    pub open spec fn install_answer(self, success: bool, index: u64) -> MessageModel {
        MessageModel::InstallSnapshotResp(
            InstallSnapshotResp { term: self.current_term, success, last_included_index: index },
        )
    }

    /// A snapshot is installed: the state machine jumps to it, and the part of the log that
    /// continues it stays.
    pub open spec fn installed(self, req: InstallModel) -> RaftModel {
        let index = req.last_included_index;
        RaftModel {
            log: if self.term_at(index as int) == req.last_included_term && index
                <= self.last_index() {
                self.log.skip(index - self.base_index)
            } else {
                Seq::empty()
            },
            base_index: index,
            base_term: req.last_included_term,
            snapshot: Some(req.data),
            commit_index: larger(self.commit_index, index),
            last_applied: index,
            pending_restore: true,
            dirty: true,
            ..self
        }
    }

    /// A snapshot transfer is answered.
    pub open spec fn install_answered(self, from: Seq<char>, req: InstallModel) -> RaftModel {
        if req.term < self.current_term {
            self.sending(from, self.install_answer(false, 0))
        } else {
            let s = self.following(req.term, Some(from));
            if req.last_included_index <= s.commit_index {
                s.sending(from, s.install_answer(true, larger(s.commit_index, s.base_index)))
            } else {
                let t = s.installed(req);
                t.sending(from, t.install_answer(true, t.base_index))
            }
        }
    }

    /// A snapshot answer arrives. It acknowledges at most the boundary recorded for that peer.
    pub open spec fn install_acked(self, from: Seq<char>, resp: InstallSnapshotResp) -> RaftModel {
        if resp.term > self.current_term {
            self.following(resp.term, None)
        } else if self.role != Role::Leader || resp.term != self.current_term {
            self
        } else {
            let s = RaftModel {
                acked_since_check: self.acked_since_check.insert(from),
                ..self
            };
            if resp.success {
                let now = larger(
                    value_or(s.match_index, from, 0),
                    smaller(resp.last_included_index, value_or(s.snapshot_sent, from, 0)),
                );
                (RaftModel {
                    match_index: s.match_index.insert(from, now),
                    next_index: s.next_index.insert(from, saturated(now + 1) as u64),
                    ..s
                }).advancing_aloud()
            } else {
                s
            }
        }
    }

    /// Whether a message counts: it comes from a configured member, and a request's body claims
    /// the identity it came under.
    pub open spec fn accepts(self, from: Seq<char>, msg: MessageModel) -> bool {
        &&& self.peers.contains(from)
        &&& msg.claimed_sender() is Some ==> msg.claimed_sender() == Some(from)
    }

    /// One inbound message is handled.
    pub open spec fn stepped(self, from: Seq<char>, msg: MessageModel) -> RaftModel {
        if !self.accepts(from, msg) {
            self
        } else {
            match msg {
                MessageModel::RequestVote(req) => self.vote_answered(from, req),
                MessageModel::RequestVoteResp(resp) => self.vote_received(from, resp),
                MessageModel::AppendEntries(req) => self.append_answered(from, req),
                MessageModel::AppendEntriesResp(resp) => self.append_acked(from, resp),
                MessageModel::InstallSnapshot(req) => self.install_answered(from, req),
                MessageModel::InstallSnapshotResp(resp) => self.install_acked(from, resp),
            }
        }
    }

    /// A leader takes a command into the log.
    pub open spec fn proposed(self, command: CommandModel) -> RaftModel {
        if self.role == Role::Leader {
            self.appending(Some(command)).advancing().broadcasting()
        } else {
            self
        }
    }

    /// The log is compacted up to `index`, which must be newer than the base and committed.
    pub open spec fn compacted(self, index: u64, snapshot: Seq<u8>) -> RaftModel {
        if self.base_index < index <= self.commit_index {
            RaftModel {
                log: self.log.skip(index - self.base_index),
                base_index: index,
                base_term: self.term_at(index as int),
                snapshot: Some(snapshot),
                dirty: true,
                ..self
            }
        } else {
            self
        }
    }

    /// The commands of the live entries with index in `(lo, hi]`, with their indexes.
    pub open spec fn commands_between(self, lo: int, hi: int) -> Seq<(u64, CommandModel)>
        decreases hi - lo,
    {
        if hi <= lo {
            Seq::empty()
        } else {
            let before = self.commands_between(lo, hi - 1);
            if self.base_index < hi <= self.last_index() {
                match self.log[hi - self.base_index - 1].command {
                    Some(c) => before.push((hi as u64, c)),
                    None => before,
                }
            } else {
                before
            }
        }
    }

    /// The side effects that wait.
    pub open spec fn pending(self) -> ReadyModel {
        ReadyModel {
            persist: if self.dirty {
                Some(self.durable())
            } else {
                None
            },
            restore: if self.pending_restore {
                self.snapshot
            } else {
                None
            },
            applied_from: self.last_applied,
            applied_upto: self.commit_index,
            messages: self.out,
            committed: self.commands_between(self.last_applied as int, self.commit_index as int),
        }
    }

    /// The state once the side effects are drained.
    pub open spec fn drained(self) -> RaftModel {
        RaftModel {
            out: Seq::empty(),
            dirty: false,
            pending_restore: false,
            last_applied: self.commit_index,
            ..self
        }
    }
}

} // verus!
