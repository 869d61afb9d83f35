//! A group of members as a whole: how each of them moves, what travels between them, and what a
//! crash leaves behind.

use crate::raft_laws;
use crate::raft_laws::Event;
use crate::raft_model::{MessageModel, PersistedModel, RaftModel};
use vstd::prelude::*;

verus! {

/// A message on its way.
#[verifier::ext_equal]
pub struct Packet {
    pub from: Seq<char>,
    pub to: Seq<char>,
    pub msg: MessageModel,
}

/// A group of members.
#[verifier::ext_equal]
pub struct GroupModel {
    /// What each member is now.
    pub current: Map<Seq<char>, RaftModel>,
    /// What each member was when its side effects were last drained. Its durable part is saved.
    pub saved: Map<Seq<char>, RaftModel>,
    /// Every message ever sent. Each may arrive any number of times, in any order, or never.
    pub sent: Set<Packet>,
}

/// Something that happens in a group.
pub enum GroupEvent {
    /// A member takes an event other than draining its side effects.
    Act { id: Seq<char>, event: Event },
    /// A member's side effects are drained: the durable state is saved, and only then the
    /// messages are sent.
    Drain { id: Seq<char> },
    /// A member crashes, and restarts from what it last saved.
    Crash { id: Seq<char>, seed: u64 },
}

/// The messages that wait in a member's outbox.
pub open spec fn outbox(s: RaftModel) -> Set<Packet> {
    Set::new(
        |pkt: Packet|
            pkt.from == s.id && exists|k: int|
                0 <= k < s.out.len() && (#[trigger] s.out[k]).to == pkt.to && s.out[k].msg
                    == pkt.msg,
    )
}

/// Nothing saved yet.
pub open spec fn nothing_saved() -> PersistedModel {
    PersistedModel {
        current_term: 0,
        voted_for: None,
        commit_index: 0,
        log: Seq::empty(),
        base_index: 0,
        base_term: 0,
        snapshot: None,
    }
}

/// Whether `s` is configured as the member `id` of the group `ids`: its peers are all the others,
/// each named once.
pub open spec fn configured(ids: Set<Seq<char>>, id: Seq<char>, s: RaftModel) -> bool {
    &&& s.id == id
    &&& s.peers.no_duplicates()
    &&& s.peers.to_set() == ids.remove(id)
}

impl GroupModel {
    /// The members.
    pub open spec fn ids(self) -> Set<Seq<char>> {
        self.current.dom()
    }

    /// Whether the group has just been set up: every member starts with nothing saved, and nothing
    /// has been sent.
    pub open spec fn initial(self) -> bool {
        &&& self.ids().finite()
        &&& self.saved == self.current
        &&& self.sent == Set::<Packet>::empty()
        &&& forall|id: Seq<char>| #[trigger]
            self.current.dom().contains(id) ==> {
                let s = self.current[id];
                &&& configured(self.ids(), id, s)
                &&& s.durable() == nothing_saved()
                &&& exists|seed: u64|
                    s == #[trigger] RaftModel::fresh(id, s.peers, s.cfg, seed, nothing_saved())
            }
    }

    /// Whether an event can happen: to a member, with room left in the machine's integers, and a
    /// message arrives only where it was sent to.
    pub open spec fn can(self, e: GroupEvent) -> bool {
        match e {
            GroupEvent::Act { id, event } => {
                &&& self.ids().contains(id)
                &&& event !is Ready
                &&& raft_laws::possible(self.current[id], event)
                &&& event matches Event::Step { from, msg } ==> self.sent.contains(
                    Packet { from, to: id, msg },
                )
            },
            GroupEvent::Drain { id } => self.ids().contains(id),
            GroupEvent::Crash { id, seed } => self.ids().contains(id),
        }
    }

    /// The group after an event.
    pub open spec fn next(self, e: GroupEvent) -> GroupModel {
        match e {
            GroupEvent::Act { id, event } => GroupModel {
                current: self.current.insert(id, raft_laws::after(self.current[id], event)),
                ..self
            },
            GroupEvent::Drain { id } => GroupModel {
                current: self.current.insert(id, self.current[id].drained()),
                saved: self.saved.insert(id, self.current[id].drained()),
                sent: self.sent.union(outbox(self.current[id])),
            },
            GroupEvent::Crash { id, seed } => {
                let s = self.saved[id];
                GroupModel {
                    current: self.current.insert(
                        id,
                        RaftModel::fresh(s.id, s.peers, s.cfg, seed, s.durable()),
                    ),
                    ..self
                }
            },
        }
    }

    /// The group after a sequence of events.
    pub open spec fn after_all(self, events: Seq<GroupEvent>) -> GroupModel
        decreases events.len(),
    {
        if events.len() == 0 {
            self
        } else {
            self.after_all(events.drop_last()).next(events.last())
        }
    }

    /// Whether every event of a sequence can happen when its turn comes.
    pub open spec fn can_all(self, events: Seq<GroupEvent>) -> bool
        decreases events.len(),
    {
        events.len() > 0 ==> {
            &&& self.can_all(events.drop_last())
            &&& self.after_all(events.drop_last()).can(events.last())
        }
    }
}

} // verus!
