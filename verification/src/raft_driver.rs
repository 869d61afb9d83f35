//! The decisions that turn the pure engine into a live control plane: what has to reach the disk
//! before anything else happens, in which order committed commands are applied, when the log is
//! compacted, and what is sent to whom.
//!
//! A drain of the engine's side effects is a small state machine. It asks for one piece of outside
//! work at a time (a save, a decode, an encode, a handoff) and is told how that went. Whatever
//! must be durable is saved before a message leaves or a command is applied, and a failure makes
//! the member unavailable for good.

use crate::cluster::{apply_command, Command, CommandModel, StateModel};
use crate::membership::{Membership, MembershipConfig};
use crate::model::{AssignmentModel, NodeId, ScalePlan, ShardAssignment, ShardId};
use crate::placement;
use crate::placement::Placement;
use crate::raft::{
    Addressed, AppendEntriesResp, InstallSnapshotResp, Persisted, Raft, RaftConfig, RaftMessage,
    Ready, RequestVoteResp, Role,
};
use crate::raft_laws;
use crate::raft_model;
use crate::raft_model::{AddressedModel, MessageModel, PersistedModel, RaftModel, ReadyModel};
use crate::text;
use crate::text::{from_chars, text_eq, to_chars};
use subtle::ConstantTimeEq;
use vstd::prelude::*;

verus! {

/// The log is compacted once it has this many live entries.
pub const COMPACT_LOG_THRESHOLD: usize = 256;

/// The replicated state machine as a snapshot carries it: the placement map and the scale plan.
/// Membership is soft state and no part of it.
#[derive(Debug)]
pub struct StateSnapshot {
    pub shards: Vec<ShardAssignment>,
    pub plan: ScalePlan,
}

/// The value of a [`StateSnapshot`].
#[verifier::ext_equal]
pub struct SnapshotModel {
    pub shards: Seq<AssignmentModel>,
    pub plan: ScalePlan,
}

impl DeepView for StateSnapshot {
    type V = SnapshotModel;

    open spec fn deep_view(&self) -> SnapshotModel {
        SnapshotModel { shards: self.shards.deep_view(), plan: self.plan }
    }
}

/// The snapshot of a state.
pub open spec fn snapshot_of(s: StateModel) -> SnapshotModel {
    SnapshotModel {
        shards: placement::assignment_listing(s.placement.assignments),
        plan: s.plan,
    }
}

/// The state once a snapshot is restored.
pub open spec fn restored_from(s: StateModel, snapshot: SnapshotModel) -> StateModel {
    StateModel {
        nodes: s.nodes,
        placement: s.placement.restored(snapshot.shards),
        plan: snapshot.plan,
    }
}

/// Where a drain stands: what it waits for.
#[derive(Debug, Clone, Copy, PartialEq, Eq, Structural)]
pub enum Stage {
    /// Nothing has happened yet.
    Begin,
    /// The durable state is being saved.
    Saving,
    /// An earlier batch is not applied yet.
    Applying,
    /// An installed snapshot is being decoded.
    Decoding,
    /// The state machine is being encoded for compaction.
    Encoding,
    /// The compacted state is being saved.
    SavingCompacted,
    /// The messages are being handed off.
    HandingOff,
    /// Nothing is left to do.
    Done,
}

/// How a piece of outside work went.
#[derive(Debug)]
pub enum DrainEvent {
    /// Start, or look again whether an earlier batch is applied.
    Proceed,
    /// Whether the save succeeded.
    Saved(bool),
    /// The decoded snapshot, if it could be decoded.
    Decoded(Option<StateSnapshot>),
    /// The encoded state machine, if it could be encoded.
    Encoded(Option<Vec<u8>>),
    /// Whether the messages were handed off.
    HandedOff(bool),
}

/// The value of a [`DrainEvent`].
pub enum EventModel {
    Proceed,
    Saved(bool),
    Decoded(Option<SnapshotModel>),
    Encoded(Option<Seq<u8>>),
    HandedOff(bool),
}

impl DeepView for DrainEvent {
    type V = EventModel;

    open spec fn deep_view(&self) -> EventModel {
        match self {
            DrainEvent::Proceed => EventModel::Proceed,
            DrainEvent::Saved(ok) => EventModel::Saved(*ok),
            DrainEvent::Decoded(s) => EventModel::Decoded(s.deep_view()),
            DrainEvent::Encoded(b) => EventModel::Encoded(b.deep_view()),
            DrainEvent::HandedOff(ok) => EventModel::HandedOff(*ok),
        }
    }
}

/// The next piece of outside work.
#[derive(Debug)]
pub enum DrainAction {
    /// Save this durable state.
    Save(Persisted),
    /// Decode these snapshot bytes.
    Decode(Vec<u8>),
    /// Encode this state machine.
    Encode(StateSnapshot),
    /// Hand these messages off to be sent.
    HandOff(Vec<Addressed>),
    /// Wait for an earlier batch, then proceed.
    Wait,
    /// The drain is complete; this is the answer to the request it belongs to, if any.
    Finish(Option<RaftMessage>),
    /// The drain failed: the member is unavailable.
    Fail,
}

/// The value of a [`DrainAction`].
pub enum ActionModel {
    Save(PersistedModel),
    Decode(Seq<u8>),
    Encode(SnapshotModel),
    HandOff(Seq<AddressedModel>),
    Wait,
    Finish(Option<MessageModel>),
    Fail,
}

impl DeepView for DrainAction {
    type V = ActionModel;

    open spec fn deep_view(&self) -> ActionModel {
        match self {
            DrainAction::Save(p) => ActionModel::Save(p.deep_view()),
            DrainAction::Decode(b) => ActionModel::Decode(b.deep_view()),
            DrainAction::Encode(s) => ActionModel::Encode(s.deep_view()),
            DrainAction::HandOff(m) => ActionModel::HandOff(m.deep_view()),
            DrainAction::Wait => ActionModel::Wait,
            DrainAction::Finish(m) => ActionModel::Finish(m.deep_view()),
            DrainAction::Fail => ActionModel::Fail,
        }
    }
}

/// The value of a [`RaftControlPlane`].
#[verifier::ext_equal]
pub struct MemberModel {
    pub engine: RaftModel,
    /// Whether there is a disk to save to.
    pub has_store: bool,
    /// Whether the member may take part. Once lost it does not come back.
    pub available: bool,
    /// The highest log index the state machine reflects.
    pub watermark: u64,
    /// The timing of the failure detector.
    pub config: MembershipConfig,
    pub state: StateModel,
}

/// The value of a [`Drain`].
#[verifier::ext_equal]
pub struct DrainModel {
    pub ready: ReadyModel,
    pub reply_to: Option<Seq<char>>,
    pub stage: Stage,
    /// The encoded state machine that a compaction being saved folds the log into.
    pub folded: Option<Seq<u8>>,
}

/// Whether a message is an answer.
pub open spec fn is_answer(m: MessageModel) -> bool {
    m is RequestVoteResp || m is AppendEntriesResp || m is InstallSnapshotResp
}

/// The first answer addressed to the peer that asked.
pub open spec fn reply_in(messages: Seq<AddressedModel>, reply_to: Option<Seq<char>>) -> Option<
    MessageModel,
>
    decreases messages.len(),
{
    if messages.len() == 0 {
        None
    } else {
        match reply_in(messages.drop_last(), reply_to) {
            Some(m) => Some(m),
            None => if is_answer(messages.last().msg) && reply_to == Some(messages.last().to) {
                Some(messages.last().msg)
            } else {
                None
            },
        }
    }
}

/// The messages but for that answer, in order.
pub open spec fn others_in(messages: Seq<AddressedModel>, reply_to: Option<Seq<char>>) -> Seq<
    AddressedModel,
>
    decreases messages.len(),
{
    if messages.len() == 0 {
        Seq::empty()
    } else {
        let before = others_in(messages.drop_last(), reply_to);
        let last = messages.last();
        if reply_in(messages.drop_last(), reply_to) is None && is_answer(last.msg) && reply_to
            == Some(last.to) {
            before
        } else {
            before.push(last)
        }
    }
}

/// The commands of a batch that are newer than what the state machine reflects.
pub open spec fn newer(batch: Seq<(u64, CommandModel)>, watermark: u64) -> Seq<CommandModel>
    decreases batch.len(),
{
    if batch.len() == 0 {
        Seq::empty()
    } else {
        let before = newer(batch.drop_last(), watermark);
        if batch.last().0 > watermark {
            before.push(batch.last().1)
        } else {
            before
        }
    }
}

/// The commands of a batch.
pub open spec fn commands_in(batch: Seq<(u64, CommandModel)>) -> Seq<CommandModel> {
    batch.map_values(|c: (u64, CommandModel)| c.1)
}

/// What a drain leads to: the member, where the drain stands, and the next piece of outside work.
#[verifier::ext_equal]
pub struct Progress {
    pub member: MemberModel,
    pub drain: DrainModel,
    pub action: ActionModel,
}

impl MemberModel {
    /// The member gives up for good.
    pub open spec fn failed(self) -> MemberModel {
        MemberModel { available: false, ..self }
    }

    /// The drain is over, and the member is what it is.
    pub open spec fn refusing(self, d: DrainModel) -> Progress {
        Progress {
            member: self,
            drain: DrainModel { stage: Stage::Done, ..d },
            action: ActionModel::Fail,
        }
    }

    /// The last step: messages are handed off, and an answer to the asking peer is kept back.
    pub open spec fn sending(self, d: DrainModel) -> Progress {
        let others = others_in(d.ready.messages, d.reply_to);
        if others.len() > 0 {
            Progress {
                member: self,
                drain: DrainModel { stage: Stage::HandingOff, ..d },
                action: ActionModel::HandOff(others),
            }
        } else {
            Progress {
                member: self,
                drain: DrainModel { stage: Stage::Done, ..d },
                action: ActionModel::Finish(reply_in(d.ready.messages, d.reply_to)),
            }
        }
    }

    /// A long log is folded into a snapshot of the state machine.
    pub open spec fn compacting(self, d: DrainModel) -> Progress {
        if self.engine.log.len() >= COMPACT_LOG_THRESHOLD && d.ready.applied_upto
            > self.engine.base_index {
            Progress {
                member: self,
                drain: DrainModel { stage: Stage::Encoding, ..d },
                action: ActionModel::Encode(snapshot_of(self.state)),
            }
        } else {
            self.sending(d)
        }
    }

    /// The committed commands take effect, in log order: an installed snapshot replaces the state
    /// machine, and a batch waits for the one before it.
    pub open spec fn applying(self, d: DrainModel) -> Progress {
        if d.ready.restore is Some {
            if d.ready.applied_upto >= self.watermark {
                Progress {
                    member: self,
                    drain: DrainModel { stage: Stage::Decoding, ..d },
                    action: ActionModel::Decode(d.ready.restore->0),
                }
            } else {
                self.compacting(d)
            }
        } else if d.ready.applied_upto > d.ready.applied_from {
            if self.watermark < d.ready.applied_from {
                Progress {
                    member: self,
                    drain: DrainModel { stage: Stage::Applying, ..d },
                    action: ActionModel::Wait,
                }
            } else {
                (MemberModel {
                    state: self.state.applied_all(newer(d.ready.committed, self.watermark)),
                    watermark: if d.ready.applied_upto > self.watermark {
                        d.ready.applied_upto
                    } else {
                        self.watermark
                    },
                    ..self
                }).compacting(d)
            }
        } else {
            self.compacting(d)
        }
    }

    /// One step of a drain.
    pub open spec fn advanced(self, d: DrainModel, event: EventModel) -> Progress {
        if !self.available {
            self.refusing(d)
        } else {
            match (d.stage, event) {
                (Stage::Begin, EventModel::Proceed) => if d.ready.persist is Some
                    && self.has_store {
                    Progress {
                        member: self,
                        drain: DrainModel { stage: Stage::Saving, ..d },
                        action: ActionModel::Save(self.engine.durable()),
                    }
                } else {
                    self.applying(d)
                },
                (Stage::Saving, EventModel::Saved(ok)) => if ok {
                    self.applying(d)
                } else {
                    self.failed().refusing(d)
                },
                (Stage::Applying, EventModel::Proceed) => self.applying(d),
                (Stage::Decoding, EventModel::Decoded(decoded)) => match decoded {
                    Some(snapshot) => if d.ready.applied_upto >= self.watermark {
                        (MemberModel {
                            state: restored_from(self.state, snapshot).applied_all(
                                commands_in(d.ready.committed),
                            ),
                            watermark: d.ready.applied_upto,
                            ..self
                        }).compacting(d)
                    } else {
                        self.compacting(d)
                    },
                    None => self.failed().refusing(d),
                },
                (Stage::Encoding, EventModel::Encoded(encoded)) => match encoded {
                    Some(data) => {
                        let compacted = self.engine.compacted(d.ready.applied_upto, data);
                        if self.has_store {
                            Progress {
                                member: self,
                                drain: DrainModel {
                                    stage: Stage::SavingCompacted,
                                    folded: Some(data),
                                    ..d
                                },
                                action: ActionModel::Save(compacted.durable()),
                            }
                        } else {
                            (MemberModel { engine: compacted, ..self }).sending(d)
                        }
                    },
                    None => self.failed().refusing(d),
                },
                (Stage::SavingCompacted, EventModel::Saved(ok)) => if ok && d.folded is Some {
                    (MemberModel {
                        engine: self.engine.compacted(d.ready.applied_upto, d.folded->0),
                        ..self
                    }).sending(DrainModel { folded: None, ..d })
                } else {
                    self.failed().refusing(d)
                },
                (Stage::HandingOff, EventModel::HandedOff(ok)) => if ok {
                    Progress {
                        member: self,
                        drain: DrainModel { stage: Stage::Done, ..d },
                        action: ActionModel::Finish(reply_in(d.ready.messages, d.reply_to)),
                    }
                } else {
                    self.failed().refusing(d)
                },
                _ => self.refusing(d),
            }
        }
    }
}

/// A drain in progress.
pub struct Drain {
    ready: Ready,
    reply_to: Option<NodeId>,
    stage: Stage,
    folded: Option<Vec<u8>>,
}

impl View for Drain {
    type V = DrainModel;

    closed spec fn view(&self) -> DrainModel {
        DrainModel {
            ready: self.ready.deep_view(),
            reply_to: self.reply_to.deep_view(),
            stage: self.stage,
            folded: self.folded.deep_view(),
        }
    }
}

impl Drain {
    /// A drain of side effects; an answer to `reply_to` is given back rather than sent.
    pub fn new(ready: Ready, reply_to: Option<NodeId>) -> (r: Self)
        ensures
            r@ == (DrainModel {
                ready: ready.deep_view(),
                reply_to: reply_to.deep_view(),
                stage: Stage::Begin,
                folded: None,
            }),
    {
        Drain { ready, reply_to, stage: Stage::Begin, folded: None }
    }
}

/// The part of a member that only its own steps change: the engine, and where the member stands.
pub struct MemberCore {
    engine: Raft,
    has_store: bool,
    available: bool,
    watermark: u64,
}

impl MemberCore {
    /// The engine.
    pub closed spec fn raft(&self) -> RaftModel {
        self.engine@
    }

    /// Whether there is a disk to save to.
    pub closed spec fn stored(&self) -> bool {
        self.has_store
    }

    /// Whether the member may take part.
    pub closed spec fn taking_part(&self) -> bool {
        self.available
    }

    /// The highest log index the state machine reflects.
    pub closed spec fn reflected(&self) -> u64 {
        self.watermark
    }
}

/// A control plane that replicates its commands through consensus.
pub struct RaftControlPlane {
    pub core: MemberCore,
    pub membership: Membership,
    pub placement: Placement,
    pub plan: ScalePlan,
}

impl View for RaftControlPlane {
    type V = MemberModel;

    open spec fn view(&self) -> MemberModel {
        MemberModel {
            engine: self.core.raft(),
            has_store: self.core.stored(),
            available: self.core.taking_part(),
            watermark: self.core.reflected(),
            config: self.membership.config(),
            state: StateModel {
                nodes: self.membership.nodes(),
                placement: self.placement@,
                plan: self.plan,
            },
        }
    }
}

fn split_messages(messages: Vec<Addressed>, reply_to: &Option<NodeId>) -> (r: (
    Option<RaftMessage>,
    Vec<Addressed>,
))
    ensures
        r.0.deep_view() == reply_in(messages.deep_view(), reply_to.deep_view()),
        r.1.deep_view() == others_in(messages.deep_view(), reply_to.deep_view()),
{
    let ghost model = messages.deep_view();
    let ghost to = reply_to.deep_view();
    let mut reply: Option<RaftMessage> = None;
    let mut others: Vec<Addressed> = Vec::new();
    let mut i: usize = 0;
    assert(others.deep_view() =~= others_in(model.take(0), to));
    while i < messages.len()
        invariant
            i <= messages.len(),
            model == messages.deep_view(),
            to == reply_to.deep_view(),
            reply.deep_view() == reply_in(model.take(i as int), to),
            others.deep_view() == others_in(model.take(i as int), to),
        decreases messages.len() - i,
    {
        assert(model.take(i + 1).drop_last() =~= model.take(i as int));
        assert(model.take(i + 1).last() == messages@[i as int].deep_view());
        let m = messages[i].clone();
        let ghost mm = m.deep_view();
        let answer: bool = match &m.msg {
            RaftMessage::RequestVoteResp(_) => true,
            RaftMessage::AppendEntriesResp(_) => true,
            RaftMessage::InstallSnapshotResp(_) => true,
            _ => false,
        };
        let asked: bool = match reply_to {
            Some(p) => text_eq(p.as_str(), m.to.as_str()),
            None => false,
        };
        if reply.is_none() && answer && asked {
            reply = Some(m.msg);
        } else {
            let ghost was = others.deep_view();
            others.push(m);
            assert(others.deep_view() =~= was.push(mm));
        }
        i += 1;
    }
    assert(model.take(model.len() as int) =~= model);
    (reply, others)
}

impl RaftControlPlane {
    /// What every step keeps.
    pub open spec fn sound(&self) -> bool {
        self@.engine.wf()
    }

    /// A member over a recovered durable state. `decoded` is the recovered snapshot in decoded
    /// form; if there is a snapshot and it could not be decoded, there is no member.
    pub fn new(
        id: NodeId,
        peers: Vec<NodeId>,
        cfg: RaftConfig,
        has_store: bool,
        restored: Persisted,
        decoded: Option<StateSnapshot>,
        membership: Membership,
        placement: Placement,
        plan: ScalePlan,
    ) -> (r: Option<Self>)
        requires
            raft_model::timing_ok(cfg),
            restored.deep_view().valid(),
        ensures
            match r {
                None => restored.snapshot is Some && decoded is None,
                Some(cp) => {
                    &&& restored.snapshot is None || decoded is Some
                    &&& cp.sound()
                    &&& cp@ == (MemberModel {
                        engine: RaftModel::fresh(
                            id@,
                            peers.deep_view(),
                            cfg,
                            seed_of(id@),
                            restored.deep_view(),
                        ),
                        has_store,
                        available: true,
                        watermark: restored.base_index,
                        config: membership.config(),
                        state: {
                            let s = StateModel {
                                nodes: membership.nodes(),
                                placement: placement@,
                                plan,
                            };
                            if restored.snapshot is Some {
                                restored_from(s, decoded.deep_view()->0)
                            } else {
                                s
                            }
                        },
                    })
                },
            },
    {
        let mut placement = placement;
        let mut plan = plan;
        if restored.snapshot.is_some() {
            match decoded {
                Some(snapshot) => {
                    placement.restore_from(snapshot.shards);
                    plan = snapshot.plan;
                },
                None => {
                    return None;
                },
            }
        }
        let watermark: u64 = restored.base_index;
        let seed: u64 = seed_from(id.as_str());
        let engine = Raft::new(id, peers, cfg, seed, restored);
        Some(
            RaftControlPlane {
                core: MemberCore { engine, has_store, available: true, watermark },
                membership,
                placement,
                plan,
            },
        )
    }

    /// Whether this member may take part.
    pub fn is_available(&self) -> (r: bool)
        ensures
            r == self@.available,
    {
        self.core.available
    }

    /// Whether this member leads and may take part.
    pub fn is_leader(&self) -> (r: bool)
        ensures
            r == (self@.available && self@.engine.role == Role::Leader),
    {
        self.core.available && self.core.engine.is_leader()
    }

    /// The known leader, while this member may take part.
    pub fn leader_addr(&self) -> (r: Option<String>)
        ensures
            r.deep_view() == if self@.available {
                self@.engine.leader_id
            } else {
                None
            },
    {
        if !self.core.available {
            return None;
        }
        match self.core.engine.leader() {
            Some(l) => Some(l.clone()),
            None => None,
        }
    }

    /// The current term.
    pub fn term(&self) -> (r: u64)
        ensures
            r == self@.engine.current_term,
    {
        self.core.engine.term()
    }

    /// The commit point.
    pub fn commit_index(&self) -> (r: u64)
        ensures
            r == self@.engine.commit_index,
    {
        self.core.engine.commit_index()
    }

    /// The number of live log entries.
    pub fn log_len(&self) -> (r: usize)
        ensures
            r == self@.engine.log.len(),
    {
        self.core.engine.log_len()
    }

    /// The snapshot boundary of the log.
    pub fn base_index(&self) -> (r: u64)
        ensures
            r == self@.engine.base_index,
    {
        self.core.engine.base_index()
    }

    /// Whether the integers leave room for a new term and a new entry.
    pub fn has_room(&self) -> (r: bool)
        requires
            self.sound(),
        ensures
            r == self@.engine.has_headroom(),
    {
        self.core.engine.has_room()
    }

    /// Makes the member unavailable for good.
    pub fn fail_closed(&mut self)
        ensures
            final(self)@ == old(self)@.failed(),
            old(self).sound() ==> final(self).sound(),
    {
        self.core.available = false;
    }

    /// One tick of logical time; nothing happens on an unavailable member.
    pub fn tick(&mut self) -> (r: Option<Drain>)
        requires
            old(self).sound(),
            old(self)@.engine.has_headroom(),
        ensures
            final(self).sound(),
            match r {
                None => !old(self)@.available && final(self)@ == old(self)@,
                Some(d) => {
                    let ticked = old(self)@.engine.ticked();
                    &&& old(self)@.available
                    &&& d@ == (DrainModel {
                        ready: ticked.pending(),
                        reply_to: None,
                        stage: Stage::Begin,
                        folded: None,
                    })
                    &&& final(self)@ == (MemberModel { engine: ticked.drained(), ..old(self)@ })
                },
            },
    {
        if !self.core.available {
            return None;
        }
        self.core.engine.tick();
        let ready = self.core.engine.ready();
        Some(Drain::new(ready, None))
    }

    /// A peer's message comes in; nothing happens on an unavailable member. With `answering` the
    /// answer to the peer is given back by the drain rather than sent.
    pub fn step(&mut self, from: NodeId, msg: RaftMessage, answering: bool) -> (r: Option<Drain>)
        requires
            old(self).sound(),
            msg is RequestVoteResp ==> old(self)@.engine.has_headroom(),
        ensures
            final(self).sound(),
            match r {
                None => !old(self)@.available && final(self)@ == old(self)@,
                Some(d) => {
                    let stepped = old(self)@.engine.stepped(from@, msg.deep_view());
                    &&& old(self)@.available
                    &&& d@ == (DrainModel {
                        ready: stepped.pending(),
                        reply_to: if answering {
                            Some(from@)
                        } else {
                            None
                        },
                        stage: Stage::Begin,
                        folded: None,
                    })
                    &&& final(self)@ == (MemberModel { engine: stepped.drained(), ..old(self)@ })
                },
            },
    {
        if !self.core.available {
            return None;
        }
        let reply_to: Option<NodeId> = if answering {
            Some(from.clone())
        } else {
            None
        };
        self.core.engine.step(from, msg);
        let ready = self.core.engine.ready();
        Some(Drain::new(ready, reply_to))
    }

    /// A command is proposed. On an available leader it is appended; the index and term it got
    /// say when it is committed.
    pub fn propose(&mut self, command: Command) -> (r: Option<(u64, u64, Drain)>)
        requires
            old(self).sound(),
            old(self)@.engine.last_index() < u64::MAX,
        ensures
            final(self).sound(),
            match r {
                None => final(self)@ == old(self)@ && !(old(self)@.available
                    && old(self)@.engine.role == Role::Leader),
                Some((index, term, d)) => {
                    let proposed = old(self)@.engine.proposed(command.deep_view());
                    &&& old(self)@.available && old(self)@.engine.role == Role::Leader
                    &&& index == old(self)@.engine.last_index() + 1
                    &&& term == proposed.current_term
                    &&& d@ == (DrainModel {
                        ready: proposed.pending(),
                        reply_to: None,
                        stage: Stage::Begin,
                        folded: None,
                    })
                    &&& final(self)@ == (MemberModel { engine: proposed.drained(), ..old(self)@ })
                },
            },
    {
        if !self.core.available {
            return None;
        }
        match self.core.engine.propose(command) {
            Ok(index) => {
                let term: u64 = self.core.engine.term();
                let ready = self.core.engine.ready();
                Some((index, term, Drain::new(ready, None)))
            },
            Err(_) => None,
        }
    }

    /// Whether a proposed entry is committed (true), can no longer be reported so (false), or may
    /// still be: a member that was deposed, is unavailable or ran out of time gives up.
    pub fn commit_outcome(&self, index: u64, term: u64, timed_out: bool) -> (r: Option<bool>)
        ensures
            r == commit_verdict(self@, index, term, timed_out),
    {
        if self.core.engine.commit_index() >= index && self.core.engine.term() == term {
            return Some(true);
        }
        if self.core.engine.term() != term || !self.core.engine.is_leader() {
            return Some(false);
        }
        if timed_out || !self.core.available {
            return Some(false);
        }
        None
    }

    fn finish_sending(&mut self, drain: &mut Drain) -> (r: DrainAction)
        requires
            old(self).sound(),
        ensures
            final(self).sound(),
            (Progress { member: final(self)@, drain: final(drain)@, action: r.deep_view() })
                == old(self)@.sending(old(drain)@),
    {
        let messages = copy_messages(&drain.ready.messages);
        let (reply, others) = split_messages(messages, &drain.reply_to);
        if others.len() > 0 {
            drain.stage = Stage::HandingOff;
            DrainAction::HandOff(others)
        } else {
            drain.stage = Stage::Done;
            DrainAction::Finish(reply)
        }
    }

    fn finish_compacting(&mut self, drain: &mut Drain) -> (r: DrainAction)
        requires
            old(self).sound(),
        ensures
            final(self).sound(),
            (Progress { member: final(self)@, drain: final(drain)@, action: r.deep_view() })
                == old(self)@.compacting(old(drain)@),
    {
        if self.core.engine.log_len() >= COMPACT_LOG_THRESHOLD && drain.ready.applied_upto
            > self.core.engine.base_index() {
            drain.stage = Stage::Encoding;
            let shards = self.placement.snapshot();
            return DrainAction::Encode(StateSnapshot { shards, plan: self.plan });
        }
        self.finish_sending(drain)
    }

    /// Applies the commands of a batch above a watermark, in order.
    fn apply_newer(&mut self, batch: &Vec<(u64, Command)>, watermark: Option<u64>)
        requires
            old(self).sound(),
        ensures
            final(self).sound(),
            final(self)@ == (MemberModel {
                state: old(self)@.state.applied_all(
                    match watermark {
                        Some(w) => newer(batch.deep_view(), w),
                        None => commands_in(batch.deep_view()),
                    },
                ),
                ..old(self)@
            }),
    {
        let ghost before = self@;
        let ghost model = batch.deep_view();
        let ghost which = |n: int|
            match watermark {
                Some(w) => newer(model.take(n), w),
                None => commands_in(model.take(n)),
            };
        let mut i: usize = 0;
        assert(which(0) =~= Seq::<CommandModel>::empty());
        while i < batch.len()
            invariant
                i <= batch.len(),
                self.sound(),
                model == batch.deep_view(),
                which == |n: int|
                    match watermark {
                        Some(w) => newer(model.take(n), w),
                        None => commands_in(model.take(n)),
                    },
                self@ == (MemberModel {
                    state: before.state.applied_all(which(i as int)),
                    ..before
                }),
            decreases batch.len() - i,
        {
            assert(model.take(i + 1).drop_last() =~= model.take(i as int));
            assert(model.take(i + 1).last() == batch@[i as int].deep_view());
            let wanted: bool = match watermark {
                Some(w) => batch[i].0 > w,
                None => true,
            };
            let ghost c = batch@[i as int].1.deep_view();
            if wanted {
                let command = batch[i].1.clone();
                apply_command(
                    &mut self.membership,
                    &mut self.placement,
                    &mut self.plan,
                    command,
                );
                assert(which(i + 1) =~= which(i as int).push(c));
                assert(which(i as int).push(c).drop_last() =~= which(i as int));
            } else {
                assert(which(i + 1) =~= which(i as int));
            }
            i += 1;
        }
        assert(model.take(model.len() as int) =~= model);
    }

    fn finish_applying(&mut self, drain: &mut Drain) -> (r: DrainAction)
        requires
            old(self).sound(),
        ensures
            final(self).sound(),
            (Progress { member: final(self)@, drain: final(drain)@, action: r.deep_view() })
                == old(self)@.applying(old(drain)@),
    {
        if let Some(bytes) = &drain.ready.restore {
            if drain.ready.applied_upto >= self.core.watermark {
                let data = bytes.clone();
                assert(data.deep_view() =~= bytes.deep_view());
                drain.stage = Stage::Decoding;
                return DrainAction::Decode(data);
            }
            return self.finish_compacting(drain);
        }
        if drain.ready.applied_upto > drain.ready.applied_from {
            if self.core.watermark < drain.ready.applied_from {
                drain.stage = Stage::Applying;
                return DrainAction::Wait;
            }
            let watermark: u64 = self.core.watermark;
            self.apply_newer(&drain.ready.committed, Some(watermark));
            if drain.ready.applied_upto > self.core.watermark {
                self.core.watermark = drain.ready.applied_upto;
            }
        }
        self.finish_compacting(drain)
    }

    /// One step of a drain: takes note of how the last piece of outside work went, and says what
    /// is to be done next.
    pub fn advance(&mut self, drain: &mut Drain, event: DrainEvent) -> (r: DrainAction)
        requires
            old(self).sound(),
        ensures
            final(self).sound(),
            (Progress { member: final(self)@, drain: final(drain)@, action: r.deep_view() })
                == old(self)@.advanced(old(drain)@, event.deep_view()),
    {
        if !self.core.available {
            drain.stage = Stage::Done;
            return DrainAction::Fail;
        }
        match (drain.stage, event) {
            (Stage::Begin, DrainEvent::Proceed) => {
                if drain.ready.persist.is_some() && self.core.has_store {
                    drain.stage = Stage::Saving;
                    return DrainAction::Save(self.core.engine.persisted_snapshot());
                }
                self.finish_applying(drain)
            },
            (Stage::Saving, DrainEvent::Saved(ok)) => {
                if ok {
                    self.finish_applying(drain)
                } else {
                    self.core.available = false;
                    drain.stage = Stage::Done;
                    DrainAction::Fail
                }
            },
            (Stage::Applying, DrainEvent::Proceed) => self.finish_applying(drain),
            (Stage::Decoding, DrainEvent::Decoded(decoded)) => match decoded {
                Some(snapshot) => {
                    if drain.ready.applied_upto >= self.core.watermark {
                        self.placement.restore_from(snapshot.shards);
                        self.plan = snapshot.plan;
                        self.apply_newer(&drain.ready.committed, None);
                        self.core.watermark = drain.ready.applied_upto;
                    }
                    self.finish_compacting(drain)
                },
                None => {
                    self.core.available = false;
                    drain.stage = Stage::Done;
                    DrainAction::Fail
                },
            },
            (Stage::Encoding, DrainEvent::Encoded(encoded)) => match encoded {
                Some(data) => {
                    if self.core.has_store {
                        let mut compacted = self.core.engine.clone();
                        let copy = data.clone();
                        assert(copy.deep_view() =~= data.deep_view());
                        compacted.compact(drain.ready.applied_upto, copy);
                        let durable = compacted.persisted_snapshot();
                        drain.folded = Some(data);
                        drain.stage = Stage::SavingCompacted;
                        DrainAction::Save(durable)
                    } else {
                        self.core.engine.compact(drain.ready.applied_upto, data);
                        self.finish_sending(drain)
                    }
                },
                None => {
                    self.core.available = false;
                    drain.stage = Stage::Done;
                    DrainAction::Fail
                },
            },
            (Stage::SavingCompacted, DrainEvent::Saved(ok)) => {
                if ok && drain.folded.is_some() {
                    let mut folded: Option<Vec<u8>> = None;
                    std::mem::swap(&mut folded, &mut drain.folded);
                    if let Some(data) = folded {
                        self.core.engine.compact(drain.ready.applied_upto, data);
                    }
                    self.finish_sending(drain)
                } else {
                    self.core.available = false;
                    drain.stage = Stage::Done;
                    DrainAction::Fail
                }
            },
            (Stage::HandingOff, DrainEvent::HandedOff(ok)) => {
                if ok {
                    let messages = copy_messages(&drain.ready.messages);
                    let (reply, _others) = split_messages(messages, &drain.reply_to);
                    drain.stage = Stage::Done;
                    DrainAction::Finish(reply)
                } else {
                    self.core.available = false;
                    drain.stage = Stage::Done;
                    DrainAction::Fail
                }
            },
            _ => {
                drain.stage = Stage::Done;
                DrainAction::Fail
            },
        }
    }
}

fn copy_messages(messages: &Vec<Addressed>) -> (r: Vec<Addressed>)
    ensures
        r.deep_view() == messages.deep_view(),
{
    let mut r: Vec<Addressed> = Vec::new();
    let mut i: usize = 0;
    while i < messages.len()
        invariant
            i <= messages.len(),
            r.len() == i,
            forall|k: int|
                0 <= k < i ==> (#[trigger] r@[k]).deep_view() == messages@[k].deep_view(),
        decreases messages.len() - i,
    {
        r.push(messages[i].clone());
        i += 1;
    }
    assert(r.deep_view() =~= messages.deep_view());
    r
}

/// Whether a proposed entry is known to be committed, known not to be reported so, or undecided.
pub open spec fn commit_verdict(m: MemberModel, index: u64, term: u64, timed_out: bool) -> Option<
    bool,
> {
    if m.engine.commit_index >= index && m.engine.current_term == term {
        Some(true)
    } else if m.engine.current_term != term || m.engine.role != Role::Leader || timed_out
        || !m.available {
        Some(false)
    } else {
        None
    }
}

/// One step of the hash that seeds election timeouts.
pub open spec fn hash_step(hash: u64, byte: u8) -> u64 {
    (((hash ^ (byte as u64)) as int * 0x0000_0100_0000_01b3) % 0x1_0000_0000_0000_0000) as u64
}

/// The hash of some bytes.
pub open spec fn hash_of(bytes: Seq<u8>) -> u64
    decreases bytes.len(),
{
    if bytes.len() == 0 {
        0xcbf2_9ce4_8422_2325
    } else {
        hash_step(hash_of(bytes.drop_last()), bytes.last())
    }
}

/// The election seed of a member.
pub open spec fn seed_of(id: Seq<char>) -> u64 {
    hash_of(vstd::utf8::encode_utf8(id))
}

/// The election seed of a member: a hash of its id, so that members differ.
pub fn seed_from(id: &str) -> (r: u64)
    ensures
        r == seed_of(id@),
{
    let bytes = id.as_bytes();
    let mut hash: u64 = 0xcbf2_9ce4_8422_2325;
    let mut i: usize = 0;
    while i < bytes.len()
        invariant
            i <= bytes.len(),
            bytes@ == vstd::utf8::encode_utf8(id@),
            hash == hash_of(bytes@.take(i as int)),
        decreases bytes.len() - i,
    {
        assert(bytes@.take(i + 1).drop_last() =~= bytes@.take(i as int));
        hash = (hash ^ (bytes[i] as u64)).wrapping_mul(0x0000_0100_0000_01b3);
        i += 1;
    }
    assert(bytes@.take(bytes@.len() as int) =~= bytes@);
    hash
}

/// Why there is no peer secret.
#[derive(Debug, Clone, Copy, PartialEq, Eq, Structural)]
pub enum SecretError {
    /// None is configured, or it is blank.
    Missing,
}

impl SecretError {
    /// The message of the error.
    pub fn message(&self) -> (r: String)
        ensures
            r@
                == "FIDUCIA_BRAIN_RAFT_SECRET is required when FIDUCIA_BRAIN_PEERS enables the peer Raft plane"@,
    {
        "FIDUCIA_BRAIN_RAFT_SECRET is required when FIDUCIA_BRAIN_PEERS enables the peer Raft plane".to_owned()
    }
}

/// The bearer secret of the peer plane: not empty, and without surrounding white space.
#[derive(Debug)]
pub struct RaftSecret {
    secret: String,
}

impl View for RaftSecret {
    type V = Seq<char>;

    closed spec fn view(&self) -> Seq<char> {
        self.secret@
    }
}

impl Clone for RaftSecret {
    fn clone(&self) -> (r: Self)
        ensures
            r@ == self@,
    {
        RaftSecret { secret: self.secret.clone() }
    }
}

impl RaftSecret {
    /// The secret a setting stands for.
    pub fn parse(value: Option<String>) -> (r: Result<Self, SecretError>)
        ensures
            match r {
                Ok(s) => value is Some && s@ == text::trimmed(value->0@) && s@.len() > 0,
                Err(_) => value is None || text::trimmed(value->0@).len() == 0,
            },
    {
        match value {
            Some(v) => {
                let t = v.as_str().trim();
                if t.is_empty() {
                    Err(SecretError::Missing)
                } else {
                    Ok(RaftSecret { secret: t.to_owned() })
                }
            },
            None => Err(SecretError::Missing),
        }
    }

    /// The secret.
    pub fn as_str(&self) -> (r: &str)
        ensures
            r@ == self@,
    {
        self.secret.as_str()
    }
}

/// `<[u8] as subtle::ConstantTimeEq>::ct_eq`, as a `bool`: two byte strings are equal if they have
/// the same length and the same bytes. That it takes the same time wherever they differ is not
/// part of the claim.
#[verifier::external_body]
fn bytes_match(a: &[u8], b: &[u8]) -> (r: bool)
    ensures
        r == (a@ == b@),
{
    bool::from(a.ct_eq(b))
}

/// What an authorization header must say.
pub open spec fn bearer(secret: Seq<char>) -> Seq<char> {
    "Bearer "@ + secret
}

/// Whether a peer request presents the shared secret.
pub fn authorize(presented: Option<&str>, secret: &RaftSecret) -> (r: bool)
    ensures
        r == (presented.deep_view() == Some(bearer(secret@))),
        r == (presented is Some && presented->0@ == "Bearer "@ + secret@),
{
    let header: &str = match presented {
        Some(h) => h,
        None => {
            return false;
        },
    };
    let chars = to_chars(header);
    let prefix = to_chars("Bearer ");
    let ghost p = "Bearer "@;
    if chars.len() < prefix.len() {
        assert(header@.len() < bearer(secret@).len());
        return false;
    }
    let mut i: usize = 0;
    while i < prefix.len()
        invariant
            i <= prefix.len(),
            prefix.len() <= chars.len(),
            chars@ == header@,
            prefix@ == p,
            p == "Bearer "@,
            presented.deep_view() == Some(header@),
            forall|k: int| 0 <= k < i ==> chars@[k] == p[k],
        decreases prefix.len() - i,
    {
        if chars[i] != prefix[i] {
            assert(bearer(secret@)[i as int] == p[i as int]);
            return false;
        }
        i += 1;
    }
    let mut token: Vec<char> = Vec::new();
    let mut k: usize = prefix.len();
    while k < chars.len()
        invariant
            prefix.len() <= k <= chars.len(),
            token@ == chars@.subrange(prefix.len() as int, k as int),
        decreases chars.len() - k,
    {
        token.push(chars[k]);
        k += 1;
        assert(token@ =~= chars@.subrange(prefix.len() as int, k as int));
    }
    let token = from_chars(&token);
    proof {
        vstd::utf8::encode_utf8_decode_utf8(token@);
        vstd::utf8::encode_utf8_decode_utf8(secret@);
        assert(header@ =~= p + token@);
        if header@ == bearer(secret@) {
            assert(token@ =~= header@.skip(p.len() as int));
            assert(bearer(secret@).skip(p.len() as int) =~= secret@);
        }
    }
    bytes_match(token.as_str().as_bytes(), secret.as_str().as_bytes())
}

/// The answer to a vote request: the engine's, or a refusal where there is none.
pub fn vote_reply(reply: Option<RaftMessage>, term: u64, pre_vote: bool) -> (r: RequestVoteResp)
    ensures
        r == match reply {
            Some(RaftMessage::RequestVoteResp(resp)) => resp,
            _ => RequestVoteResp { term, granted: false, pre_vote },
        },
{
    match reply {
        Some(RaftMessage::RequestVoteResp(resp)) => resp,
        _ => RequestVoteResp { term, granted: false, pre_vote },
    }
}

/// The answer to a replication request: the engine's, or a refusal where there is none.
pub fn append_reply(reply: Option<RaftMessage>, term: u64) -> (r: AppendEntriesResp)
    ensures
        r == match reply {
            Some(RaftMessage::AppendEntriesResp(resp)) => resp,
            _ => AppendEntriesResp { term, success: false, match_index: 0 },
        },
{
    match reply {
        Some(RaftMessage::AppendEntriesResp(resp)) => resp,
        _ => AppendEntriesResp { term, success: false, match_index: 0 },
    }
}

/// The answer to a snapshot transfer: the engine's, or a refusal where there is none.
pub fn install_reply(reply: Option<RaftMessage>, term: u64) -> (r: InstallSnapshotResp)
    ensures
        r == match reply {
            Some(RaftMessage::InstallSnapshotResp(resp)) => resp,
            _ => InstallSnapshotResp { term, success: false, last_included_index: 0 },
        },
{
    match reply {
        Some(RaftMessage::InstallSnapshotResp(resp)) => resp,
        _ => InstallSnapshotResp { term, success: false, last_included_index: 0 },
    }
}

/// Where a request is posted.
#[derive(Debug, Clone, Copy, PartialEq, Eq, Structural)]
pub enum Rpc {
    Vote,
    Append,
    Snapshot,
}

/// Where a message is posted; answers are never posted, they ride back as the reply.
pub fn rpc_of(msg: &RaftMessage) -> (r: Option<Rpc>)
    ensures
        r == match msg.deep_view() {
            MessageModel::RequestVote(_) => Some(Rpc::Vote),
            MessageModel::AppendEntries(_) => Some(Rpc::Append),
            MessageModel::InstallSnapshot(_) => Some(Rpc::Snapshot),
            _ => None,
        },
        r is None <==> is_answer(msg.deep_view()),
{
    match msg {
        RaftMessage::RequestVote(_) => Some(Rpc::Vote),
        RaftMessage::AppendEntries(_) => Some(Rpc::Append),
        RaftMessage::InstallSnapshot(_) => Some(Rpc::Snapshot),
        _ => None,
    }
}

/// Nothing leaves before it is saved: while a save is owed or fails, no message is handed off and
/// no command is applied.
pub proof fn nothing_leaves_before_it_is_saved(m: MemberModel, d: DrainModel, event: EventModel)
    requires
        m.has_store,
        d.ready.persist is Some,
        d.stage == Stage::Begin || (d.stage == Stage::Saving && event != EventModel::Saved(true)),
    ensures
        ({
            let p = m.advanced(d, event);
            &&& p.action is Fail || p.action == ActionModel::Save(m.engine.durable())
            &&& p.member.state == m.state
            &&& p.member.watermark == m.watermark
            &&& p.action is Save ==> p.drain.stage == Stage::Saving
        }),
{
}

/// A failure is final: an unavailable member never becomes available again, and everything it is
/// asked for fails without effect.
pub proof fn unavailability_is_final(m: MemberModel, d: DrainModel, event: EventModel)
    requires
        !m.available,
    ensures
        m.advanced(d, event).member == m,
        m.advanced(d, event).action is Fail,
        forall|index: u64, term: u64, timed_out: bool|
            commit_verdict(m, index, term, timed_out) is Some,
{
}

/// Every failed piece of outside work makes the member unavailable, and its state machine and
/// engine stay as they were: a failed compaction leaves even the live log intact.
pub proof fn failures_fail_closed(m: MemberModel, d: DrainModel, event: EventModel)
    requires
        m.available,
        (event == EventModel::Saved(false) && (d.stage == Stage::Saving || d.stage
            == Stage::SavingCompacted)) || (event == EventModel::Decoded(None) && d.stage
            == Stage::Decoding) || (event == EventModel::Encoded(None) && d.stage
            == Stage::Encoding) || (event == EventModel::HandedOff(false) && d.stage
            == Stage::HandingOff),
    ensures
        m.advanced(d, event).member == m.failed(),
        m.advanced(d, event).action is Fail,
{
}

/// What the state machine reflects never moves back.
pub proof fn watermark_never_moves_back(m: MemberModel, d: DrainModel, event: EventModel)
    ensures
        m.advanced(d, event).member.watermark >= m.watermark,
{
}

/// Whether an engine has moved from `before` to `after` by folding entries into its snapshot at
/// most: the term, the vote, the commit point and the last index are the same, and so is every
/// entry that is still there.
pub open spec fn takes_nothing_back(before: RaftModel, after: RaftModel) -> bool {
    &&& after.wf()
    &&& after.current_term == before.current_term
    &&& after.voted_for == before.voted_for
    &&& after.commit_index == before.commit_index
    &&& after.last_index() == before.last_index()
    &&& before.base_index <= after.base_index <= after.commit_index
    &&& forall|i: int|
        after.base_index < i <= after.last_index() ==> #[trigger] raft_laws::entry_at(after, i)
            == raft_laws::entry_at(before, i)
}

proof fn compaction_takes_nothing_back(s: RaftModel, index: u64, data: Seq<u8>)
    requires
        s.wf(),
    ensures
        takes_nothing_back(s, s.compacted(index, data)),
{
}

/// A drain never takes anything back from the engine, however far the engine has moved on while
/// outside work was done.
pub proof fn drains_take_nothing_back(m: MemberModel, d: DrainModel, event: EventModel)
    requires
        m.engine.wf(),
    ensures
        takes_nothing_back(m.engine, m.advanced(d, event).member.engine),
{
    if let EventModel::Encoded(Some(data)) = event {
        compaction_takes_nothing_back(m.engine, d.ready.applied_upto, data);
    }
    if d.folded is Some {
        compaction_takes_nothing_back(m.engine, d.ready.applied_upto, d.folded->0);
    }
}

/// No step of a member changes the timing of its failure detector.
pub proof fn timing_is_kept(m: MemberModel, d: DrainModel, event: EventModel)
    ensures
        m.advanced(d, event).member.config == m.config,
{
}

/// A batch waits for the one before it: it takes effect only once the state machine reflects
/// everything up to where the batch starts.
pub proof fn batches_apply_in_order(m: MemberModel, d: DrainModel)
    requires
        d.ready.restore is None,
        d.ready.applied_from < d.ready.applied_upto,
        m.watermark < d.ready.applied_from,
    ensures
        m.applying(d).member == m,
        m.applying(d).action is Wait,
        m.applying(d).drain.stage == Stage::Applying,
{
}

/// Commands that an installed snapshot already covers are not applied again.
pub proof fn covered_commands_are_skipped(
    batch: Seq<(u64, CommandModel)>,
    watermark: u64,
)
    requires
        forall|k: int| 0 <= k < batch.len() ==> (#[trigger] batch[k]).0 <= watermark,
    ensures
        newer(batch, watermark) == Seq::<CommandModel>::empty(),
    decreases batch.len(),
{
    if batch.len() > 0 {
        let rest = batch.drop_last();
        assert forall|k: int| 0 <= k < rest.len() implies (#[trigger] rest[k]).0 <= watermark by {
            assert(rest[k] == batch[k]);
        }
        covered_commands_are_skipped(rest, watermark);
        assert(batch[batch.len() - 1].0 <= watermark);
    }
}

proof fn assignments_of_listing(
    assignments: Map<ShardId, AssignmentModel>,
    list: Seq<AssignmentModel>,
    n: int,
)
    requires
        placement::lists_assignments(assignments, list),
        0 <= n <= list.len(),
    ensures
        forall|k: ShardId| #[trigger]
            placement::assignments_of(list.take(n)).dom().contains(k) <==> exists|i: int|
                0 <= i < n && (#[trigger] list[i]).shard_id == k,
        forall|k: ShardId| #[trigger]
            placement::assignments_of(list.take(n)).dom().contains(k) ==> assignments.dom().contains(
                k,
            ) && placement::assignments_of(list.take(n))[k] == assignments[k],
    decreases n,
{
    if n > 0 {
        assignments_of_listing(assignments, list, n - 1);
        assert(list.take(n).drop_last() =~= list.take(n - 1));
        assert(list.take(n).last() == list[n - 1]);
        let before = placement::assignments_of(list.take(n - 1));
        let now = placement::assignments_of(list.take(n));
        assert forall|k: ShardId| #[trigger] now.dom().contains(k) <==> exists|i: int|
            0 <= i < n && (#[trigger] list[i]).shard_id == k by {
            if before.dom().contains(k) {
                let i = choose|i: int| 0 <= i < n - 1 && (#[trigger] list[i]).shard_id == k;
                assert(list[i].shard_id == k);
            }
            if exists|i: int| 0 <= i < n && (#[trigger] list[i]).shard_id == k {
                let i = choose|i: int| 0 <= i < n && (#[trigger] list[i]).shard_id == k;
                if i < n - 1 {
                    assert(before.dom().contains(k));
                }
            }
        }
    }
}

/// Restoring a snapshot gives the placement map and the scale plan back that it was taken of,
/// whatever stood there before.
pub proof fn snapshot_round_trip(taken: StateModel, onto: StateModel)
    requires
        placement::lists_assignments(
            taken.placement.assignments,
            placement::assignment_listing(taken.placement.assignments),
        ),
    ensures
        restored_from(onto, snapshot_of(taken)).placement.assignments
            == taken.placement.assignments,
        restored_from(onto, snapshot_of(taken)).plan == taken.plan,
        restored_from(onto, snapshot_of(taken)).nodes == onto.nodes,
{
    let m = taken.placement.assignments;
    let list = placement::assignment_listing(m);
    assignments_of_listing(m, list, list.len() as int);
    assert(list.take(list.len() as int) =~= list);
    let back = placement::assignments_of(list);
    assert forall|k: ShardId| #[trigger] back.dom().contains(k) <==> m.dom().contains(k) by {
        if m.dom().contains(k) {
            let i = choose|i: int| 0 <= i < list.len() && (#[trigger] list[i]).shard_id == k;
            assert(list[i].shard_id == k);
        }
    }
    assert(back =~= m);
}

/// A deposed leader never reports its uncommitted entry as committed.
pub proof fn deposed_leader_reports_failure(
    m: MemberModel,
    index: u64,
    term: u64,
    timed_out: bool,
)
    requires
        m.engine.current_term != term,
    ensures
        commit_verdict(m, index, term, timed_out) == Some(false),
{
}

} // verus!
