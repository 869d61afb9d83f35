//! What a member does with what its engine hands out, said of the commands, the messages and the
//! snapshots.

use crate::cluster::{CommandModel, StateModel};
use crate::placement;
use crate::raft::Role;
use crate::raft_driver;
use crate::raft_driver::{
    ActionModel, DrainModel, EventModel, MemberModel, SnapshotModel, Stage,
};
use crate::raft_model::{AddressedModel, MessageModel};
use vstd::prelude::*;

verus! {

/// The commands of a batch behind an index, in order.
pub open spec fn commands_behind(batch: Seq<(u64, CommandModel)>, index: u64) -> Seq<CommandModel> {
    batch.filter(|c: (u64, CommandModel)| c.0 > index).map_values(|c: (u64, CommandModel)| c.1)
}

/// What counts as new of a batch is what lies behind what the state machine reflects.
pub proof fn newer_is_behind(batch: Seq<(u64, CommandModel)>, watermark: u64)
    ensures
        raft_driver::newer(batch, watermark) == commands_behind(batch, watermark),
    decreases batch.len(),
{
    reveal(Seq::filter);
    let f = |c: (u64, CommandModel)| c.0 > watermark;
    let g = |c: (u64, CommandModel)| c.1;
    if batch.len() > 0 {
        newer_is_behind(batch.drop_last(), watermark);
        let rest = batch.drop_last().filter(f);
        if f(batch.last()) {
            assert(rest.push(batch.last()).map_values(g) =~= rest.map_values(g).push(
                batch.last().1,
            ));
        }
    }
    assert(raft_driver::newer(batch, watermark) =~= commands_behind(batch, watermark));
}

/// Whether a message answers the peer that asked.
pub open spec fn answers(m: AddressedModel, asker: Option<Seq<char>>) -> bool {
    &&& asker == Some(m.to)
    &&& match m.msg {
        MessageModel::RequestVoteResp(_) => true,
        MessageModel::AppendEntriesResp(_) => true,
        MessageModel::InstallSnapshotResp(_) => true,
        MessageModel::RequestVote(_) => false,
        MessageModel::AppendEntries(_) => false,
        MessageModel::InstallSnapshot(_) => false,
    }
}

/// Whether the messages are parted into the answer that rides back and the rest: the first answer to
/// the peer that asked is taken out, where there is one, and the rest stays in order.
pub open spec fn parted(
    messages: Seq<AddressedModel>,
    asker: Option<Seq<char>>,
    reply: Option<MessageModel>,
    others: Seq<AddressedModel>,
) -> bool {
    ||| {
        &&& reply is None
        &&& others == messages
        &&& forall|i: int| 0 <= i < messages.len() ==> !answers(#[trigger] messages[i], asker)
    }
    ||| exists|i: int|
        {
            &&& 0 <= i < messages.len()
            &&& answers(#[trigger] messages[i], asker)
            &&& reply == Some(messages[i].msg)
            &&& others == messages.remove(i)
            &&& forall|j: int| 0 <= j < i ==> !answers(#[trigger] messages[j], asker)
        }
}

/// Messages are parted into the answer to the peer that asked and the rest.
pub proof fn one_answer_rides_back(messages: Seq<AddressedModel>, asker: Option<Seq<char>>)
    ensures
        parted(
            messages,
            asker,
            raft_driver::reply_in(messages, asker),
            raft_driver::others_in(messages, asker),
        ),
    decreases messages.len(),
{
    if messages.len() == 0 {
        assert(raft_driver::others_in(messages, asker) =~= messages);
    } else {
        let rest = messages.drop_last();
        let n = rest.len() as int;
        one_answer_rides_back(rest, asker);
        let others = raft_driver::others_in(messages, asker);
        assert(rest.push(messages.last()) =~= messages);
        if raft_driver::reply_in(rest, asker) is None {
            assert forall|i: int| 0 <= i < n implies !answers(#[trigger] messages[i], asker) by {
                assert(rest[i] == messages[i]);
            }
            if answers(messages[n], asker) {
                assert(others =~= messages.remove(n));
            } else {
                assert(others =~= messages);
            }
        } else {
            let i = choose|i: int|
                {
                    &&& 0 <= i < rest.len()
                    &&& answers(#[trigger] rest[i], asker)
                    &&& raft_driver::reply_in(rest, asker) == Some(rest[i].msg)
                    &&& raft_driver::others_in(rest, asker) == rest.remove(i)
                    &&& forall|j: int| 0 <= j < i ==> !answers(#[trigger] rest[j], asker)
                };
            assert(messages[i] == rest[i]);
            assert(others =~= messages.remove(i));
            assert forall|j: int| 0 <= j < i implies !answers(#[trigger] messages[j], asker) by {
                assert(rest[j] == messages[j]);
            }
        }
    }
}

/// Whether a drain that has nothing left but its messages goes on as it should: the messages but
/// for the answer are handed off where there are any, and otherwise it is over with the answer.
pub open spec fn sends_out(d: DrainModel, stage: Stage, action: ActionModel) -> bool {
    exists|reply: Option<MessageModel>, others: Seq<AddressedModel>|
        {
            &&& #[trigger] parted(d.ready.messages, d.reply_to, reply, others)
            &&& others.len() > 0 ==> stage == Stage::HandingOff && action == ActionModel::HandOff(
                others,
            )
            &&& others.len() == 0 ==> stage == Stage::Done && action == ActionModel::Finish(reply)
        }
}

/// Whether a drain whose commands have taken effect goes on as it should: a log of 256 entries or
/// more of which something can be folded is folded first, and then the messages go out.
pub open spec fn folds_or_sends(m: MemberModel, d: DrainModel, stage: Stage, action: ActionModel) -> bool {
    if m.engine.log.len() >= 256 && d.ready.applied_upto > m.engine.base_index {
        &&& stage == Stage::Encoding
        &&& action == ActionModel::Encode(
            SnapshotModel {
                shards: placement::assignment_listing(m.state.placement.assignments),
                plan: m.state.plan,
            },
        )
    } else {
        sends_out(d, stage, action)
    }
}

/// Whether a drain with nothing left to save goes on as it should: an installed snapshot that is not
/// behind the state machine is decoded; a batch waits for the one before it and takes effect as
/// far as it is new; and everything else goes straight on.
pub open spec fn takes_effect(
    m: MemberModel,
    d: DrainModel,
    after: MemberModel,
    stage: Stage,
    action: ActionModel,
) -> bool {
    let r = d.ready;
    if r.restore is Some && r.applied_upto >= m.watermark {
        after == m && stage == Stage::Decoding && action == ActionModel::Decode(r.restore->0)
    } else if r.restore is None && r.applied_from < r.applied_upto && m.watermark < r.applied_from {
        after == m && stage == Stage::Applying && action is Wait
    } else {
        &&& folds_or_sends(after, d, stage, action)
        &&& if r.restore is None && r.applied_from < r.applied_upto {
            &&& after.state == m.state.applied_all(commands_behind(r.committed, m.watermark))
            &&& after.watermark >= m.watermark && after.watermark >= r.applied_upto
            &&& after.watermark == m.watermark || after.watermark == r.applied_upto
            &&& after == (MemberModel { state: after.state, watermark: after.watermark, ..m })
        } else {
            after == m
        }
    }
}

proof fn sending_sends_out(m: MemberModel, d: DrainModel)
    ensures
        m.sending(d).member == m,
        sends_out(d, m.sending(d).drain.stage, m.sending(d).action),
{
    one_answer_rides_back(d.ready.messages, d.reply_to);
}

proof fn compacting_folds_or_sends(m: MemberModel, d: DrainModel)
    ensures
        m.compacting(d).member == m,
        folds_or_sends(m, d, m.compacting(d).drain.stage, m.compacting(d).action),
{
    sending_sends_out(m, d);
}

/// Once its engine's state is saved, or where nothing has to be, what a drain carries takes effect.
pub proof fn saved_drains_take_effect(m: MemberModel, d: DrainModel, event: EventModel)
    requires
        m.available,
        (d.stage == Stage::Begin && event is Proceed && (d.ready.persist is None || !m.has_store))
            || (d.stage == Stage::Saving && event == EventModel::Saved(true)) || (d.stage
            == Stage::Applying && event is Proceed),
    ensures
        ({
            let p = m.advanced(d, event);
            takes_effect(m, d, p.member, p.drain.stage, p.action)
        }),
{
    newer_is_behind(d.ready.committed, m.watermark);
    compacting_folds_or_sends(m.applying(d).member, d);
    compacting_folds_or_sends(m, d);
}

/// A drain begins by saving what the engine has to keep.
pub proof fn drains_save_first(m: MemberModel, d: DrainModel)
    requires
        m.available,
        m.has_store,
        d.ready.persist is Some,
        d.stage == Stage::Begin,
    ensures
        ({
            let p = m.advanced(d, EventModel::Proceed);
            &&& p.member == m
            &&& p.drain.stage == Stage::Saving
            &&& p.action matches ActionModel::Save(s) && s.current_term == m.engine.current_term
                && s.voted_for == m.engine.voted_for && s.commit_index == m.engine.commit_index
                && s.log == m.engine.log && s.base_index == m.engine.base_index && s.base_term
                == m.engine.base_term && s.snapshot == m.engine.snapshot
        }),
{
}

/// A decoded snapshot replaces the state machine's plan and placement, and the commands behind it
/// apply on top, unless the state machine has moved past it meanwhile.
pub proof fn decoded_snapshots_replace_the_state(
    m: MemberModel,
    d: DrainModel,
    snapshot: SnapshotModel,
)
    requires
        m.available,
        d.stage == Stage::Decoding,
    ensures
        ({
            let p = m.advanced(d, EventModel::Decoded(Some(snapshot)));
            &&& folds_or_sends(p.member, d, p.drain.stage, p.action)
            &&& d.ready.applied_upto < m.watermark ==> p.member == m
            &&& d.ready.applied_upto >= m.watermark ==> {
                &&& p.member.watermark == d.ready.applied_upto
                &&& p.member.engine == m.engine
                &&& p.member.available
                &&& p.member.state == (StateModel {
                    nodes: m.state.nodes,
                    placement: m.state.placement.restored(snapshot.shards),
                    plan: snapshot.plan,
                }).applied_all(d.ready.committed.map_values(|c: (u64, CommandModel)| c.1))
            }
        }),
{
    let p = m.advanced(d, EventModel::Decoded(Some(snapshot)));
    if d.ready.applied_upto >= m.watermark {
        let s = raft_driver::restored_from(m.state, snapshot);
        let commands = d.ready.committed.map_values(|c: (u64, CommandModel)| c.1);
        assert(p.member.state == s.applied_all(commands));
        compacting_folds_or_sends(
            MemberModel { state: s.applied_all(commands), watermark: d.ready.applied_upto, ..m },
            d,
        );
    } else {
        compacting_folds_or_sends(m, d);
    }
}

/// A folded log is saved before it takes the place of the live one, and then the messages go out;
/// where there is no disk it takes its place at once.
pub proof fn folded_logs_are_saved_first(m: MemberModel, d: DrainModel, data: Seq<u8>)
    requires
        m.available,
        m.engine.wf(),
        d.stage == Stage::Encoding,
        m.engine.base_index < d.ready.applied_upto <= m.engine.commit_index,
    ensures
        ({
            let p = m.advanced(d, EventModel::Encoded(Some(data)));
            let q = p.member.advanced(p.drain, EventModel::Saved(true));
            let last = if m.has_store {
                q
            } else {
                p
            };
            &&& m.has_store ==> {
                &&& p.member == m
                &&& p.action matches ActionModel::Save(s) && s.base_index == d.ready.applied_upto
                    && s.snapshot == Some(data) && s.log == m.engine.log.skip(
                    d.ready.applied_upto - m.engine.base_index,
                ) && s == q.member.engine.durable()
            }
            &&& last.member.engine.base_index == d.ready.applied_upto
            &&& last.member.engine.snapshot == Some(data)
            &&& last.member.engine.log == m.engine.log.skip(
                d.ready.applied_upto - m.engine.base_index,
            )
            &&& last.member.state == m.state
            &&& last.member.watermark == m.watermark
            &&& last.member.available
            &&& sends_out(d, last.drain.stage, last.action)
        }),
{
    let compacted = MemberModel { engine: m.engine.compacted(d.ready.applied_upto, data), ..m };
    sending_sends_out(compacted, d);
    let folded = DrainModel { stage: Stage::SavingCompacted, folded: None, ..d };
    sending_sends_out(compacted, folded);
    let p = m.advanced(d, EventModel::Encoded(Some(data)));
    if m.has_store {
        assert((DrainModel { folded: None, ..p.drain }) == folded);
        let q = p.member.advanced(p.drain, EventModel::Saved(true));
        assert(q == compacted.sending(folded));
        let (reply, others) = choose|reply: Option<MessageModel>, others: Seq<AddressedModel>|
            {
                &&& #[trigger] parted(folded.ready.messages, folded.reply_to, reply, others)
                &&& others.len() > 0 ==> q.drain.stage == Stage::HandingOff && q.action
                    == ActionModel::HandOff(others)
                &&& others.len() == 0 ==> q.drain.stage == Stage::Done && q.action
                    == ActionModel::Finish(reply)
            };
        assert(parted(d.ready.messages, d.reply_to, reply, others));
    }
}

/// Once its messages are handed off a drain is over, with the answer that rides back.
pub proof fn handed_off_drains_finish(m: MemberModel, d: DrainModel)
    requires
        m.available,
        d.stage == Stage::HandingOff,
    ensures
        ({
            let p = m.advanced(d, EventModel::HandedOff(true));
            &&& p.member == m
            &&& p.drain.stage == Stage::Done
            &&& exists|reply: Option<MessageModel>, others: Seq<AddressedModel>| #[trigger]
                parted(d.ready.messages, d.reply_to, reply, others) && p.action
                    == ActionModel::Finish(reply)
        }),
{
    one_answer_rides_back(d.ready.messages, d.reply_to);
}

/// A proposed entry is reported as committed exactly when the commit point has reached it in the
/// term in which it was proposed; and it is waited for only while the member still leads that
/// term, may take part, and time is left.
pub proof fn commits_are_reported_as_they_are(
    m: MemberModel,
    index: u64,
    term: u64,
    timed_out: bool,
)
    ensures
        ({
            let v = raft_driver::commit_verdict(m, index, term, timed_out);
            &&& v == Some(true) <==> index <= m.engine.commit_index && m.engine.current_term == term
            &&& v is None <==> index > m.engine.commit_index && m.engine.current_term == term
                && m.engine.role == Role::Leader && m.available && !timed_out
        }),
{
}

/// The seed of a member is the 64-bit FNV-1a hash of its id's bytes.
pub proof fn seeds_are_hashes(id: Seq<char>)
    ensures
        raft_driver::seed_of(id) == vstd::utf8::encode_utf8(id).fold_left(
            14695981039346656037u64,
            |h: u64, b: u8| (((h ^ (b as u64)) as int * 1099511628211) % 18446744073709551616) as u64,
        ),
{
    hash_is_a_fold(vstd::utf8::encode_utf8(id));
}

proof fn hash_is_a_fold(bytes: Seq<u8>)
    ensures
        raft_driver::hash_of(bytes) == bytes.fold_left(
            14695981039346656037u64,
            |h: u64, b: u8| (((h ^ (b as u64)) as int * 1099511628211) % 18446744073709551616) as u64,
        ),
    decreases bytes.len(),
{
    reveal(Seq::fold_left);
    if bytes.len() > 0 {
        hash_is_a_fold(bytes.drop_last());
    }
}

} // verus!
