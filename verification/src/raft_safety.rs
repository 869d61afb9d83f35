//! Why a group stays consistent: at most one leader per term, and no two members that ever commit
//! different entries at the same place.
//!
//! The argument keeps a record of the past beside the group: every leader's whole log, every vote,
//! and how far each member acknowledged each leader.

use crate::cluster::CommandModel;
use crate::raft::{AppendEntriesResp, InstallSnapshotResp, RequestVoteResp, Role};
use crate::raft_group;
use crate::raft_group::{GroupEvent, GroupModel, Packet};
use crate::raft_laws;
use crate::raft_laws::Event;
use crate::raft_model;
use crate::raft_model::{
    AppendModel, EntryModel, InstallModel, MessageModel, RaftModel, VoteModel,
};
use vstd::prelude::*;

verus! {

/// The members and what was sent.
#[verifier::ext_equal]
struct World {
    members: Map<Seq<char>, RaftModel>,
    sent: Set<Packet>,
}

/// What is remembered of the past.
#[verifier::ext_equal]
struct Past {
    /// Every member's whole log, with what it compacted away.
    full: Map<Seq<char>, Seq<EntryModel>>,
    /// The whole log of each term's leader, as far as it got.
    logs: Map<u64, Seq<EntryModel>>,
    /// Who led each term.
    leads: Map<u64, Seq<char>>,
    /// Whom each member voted for in each term.
    votes: Map<(Seq<char>, u64), Seq<char>>,
    /// The whole log each candidate campaigned with in each term.
    cands: Map<(Seq<char>, u64), Seq<EntryModel>>,
    /// How much of the log of each term's leader each member acknowledged.
    acks: Map<(Seq<char>, u64), nat>,
}

/// Whether the first `n` entries of two logs are the same.
spec fn agree(a: Seq<EntryModel>, b: Seq<EntryModel>, n: int) -> bool {
    &&& n <= a.len()
    &&& n <= b.len()
    &&& forall|k: int| #![trigger a[k]] #![trigger b[k]] 0 <= k < n ==> a[k] == b[k]
}

/// The term of the `n`th entry, 0 where there is none.
spec fn term_of(log: Seq<EntryModel>, n: int) -> u64 {
    if 0 < n <= log.len() {
        log[n - 1].term
    } else {
        0
    }
}

/// Whether a set of members is a majority of the group.
spec fn majority(ids: Set<Seq<char>>, some: Set<Seq<char>>) -> bool {
    some.len() >= ids.len() / 2 + 1
}

impl Past {
    /// How much of the leader's log of a term a member acknowledged.
    spec fn acked(self, m: Seq<char>, t: u64) -> nat {
        if self.acks.dom().contains((m, t)) {
            self.acks[(m, t)]
        } else {
            0
        }
    }

    /// Whether a member voted for a candidate in a term.
    spec fn voted(self, m: Seq<char>, t: u64, c: Seq<char>) -> bool {
        self.votes.dom().contains((m, t)) && self.votes[(m, t)] == c
    }

    /// Whether a term's leader put the `i`th entry of its log there itself.
    spec fn own(self, t: u64, i: int) -> bool {
        &&& self.logs.dom().contains(t)
        &&& 0 < i <= self.logs[t].len()
        &&& self.logs[t][i - 1].term == t
    }

    /// Whether every entry of a log stands where the leader of its term put it, with everything
    /// before it, and is no newer than `bound`.
    spec fn sound(self, log: Seq<EntryModel>, bound: int) -> bool {
        forall|k: int|
            0 <= k < log.len() ==> {
                &&& 1 <= (#[trigger] log[k]).term <= bound
                &&& log[k].index == k + 1
                &&& self.logs.dom().contains(log[k].term)
                &&& agree(log, self.logs[log[k].term], k + 1)
            }
    }
}

/// Who voted for a candidate in a term.
spec fn voters(ids: Set<Seq<char>>, p: Past, t: u64, c: Seq<char>) -> Set<Seq<char>> {
    Set::new(|m: Seq<char>| ids.contains(m) && p.voted(m, t, c))
}

/// Who acknowledged at least `i` entries of the leader's log of a term.
spec fn ackers(ids: Set<Seq<char>>, p: Past, t: u64, i: int) -> Set<Seq<char>> {
    Set::new(|m: Seq<char>| ids.contains(m) && p.acked(m, t) >= i)
}

/// Who acknowledged at least `i` entries of the leader's log of a term, or still may.
spec fn openers(w: World, p: Past, t: u64, i: int) -> Set<Seq<char>> {
    Set::new(
        |m: Seq<char>|
            w.members.dom().contains(m) && (w.members[m].current_term <= t || p.acked(m, t) >= i),
    )
}

/// Whether no majority can ever acknowledge the `i`th entry of a term's leader in that term.
spec fn blocked(w: World, p: Past, t: u64, i: int) -> bool {
    !majority(w.members.dom(), openers(w, p, t, i))
}

/// Whether a majority acknowledged an entry of a term's leader to that leader, who put it there.
spec fn chosen(ids: Set<Seq<char>>, p: Past, t: u64, i: int) -> bool {
    p.own(t, i) && majority(ids, ackers(ids, p, t, i))
}

/// Whether the first `k` entries of a log are settled for good, by a leader no later than `bound`.
spec fn settled(
    ids: Set<Seq<char>>,
    p: Past,
    log: Seq<EntryModel>,
    k: int,
    bound: int,
) -> bool {
    k == 0 || exists|t: u64, i: int|
        #[trigger] chosen(ids, p, t, i) && t <= bound && k <= i && agree(log, p.logs[t], k)
}

/// Whether a message says nothing but what the past bears out.
spec fn backed(ids: Set<Seq<char>>, p: Past, pkt: Packet) -> bool {
    &&& ids.contains(pkt.from)
    &&& match pkt.msg {
        MessageModel::RequestVote(req) => !req.pre_vote ==> {
            &&& p.cands.dom().contains((pkt.from, req.term))
            &&& req.last_log_index == p.cands[(pkt.from, req.term)].len()
            &&& req.last_log_term == term_of(
                p.cands[(pkt.from, req.term)],
                p.cands[(pkt.from, req.term)].len() as int,
            )
        },
        MessageModel::RequestVoteResp(resp) => resp.granted && !resp.pre_vote ==> p.voted(
            pkt.from,
            resp.term,
            pkt.to,
        ),
        MessageModel::AppendEntries(req) => {
            &&& p.logs.dom().contains(req.term)
            &&& p.leads[req.term] == pkt.from
            &&& req.prev_log_index + req.entries.len() <= p.logs[req.term].len()
            &&& req.prev_log_term == term_of(p.logs[req.term], req.prev_log_index as int)
            &&& forall|k: int|
                0 <= k < req.entries.len() ==> (#[trigger] req.entries[k])
                    == p.logs[req.term][req.prev_log_index + k]
            &&& req.leader_commit <= p.logs[req.term].len()
            &&& settled(
                ids,
                p,
                p.logs[req.term],
                req.leader_commit as int,
                req.term as int,
            )
        },
        MessageModel::AppendEntriesResp(resp) => resp.success ==> resp.match_index <= p.acked(
            pkt.from,
            resp.term,
        ),
        MessageModel::InstallSnapshot(req) => {
            &&& p.logs.dom().contains(req.term)
            &&& p.leads[req.term] == pkt.from
            &&& 0 < req.last_included_index <= p.logs[req.term].len()
            &&& req.last_included_term == term_of(
                p.logs[req.term],
                req.last_included_index as int,
            )
            &&& settled(
                ids,
                p,
                p.logs[req.term],
                req.last_included_index as int,
                req.term as int,
            )
        },
        MessageModel::InstallSnapshotResp(resp) => resp.success ==> resp.last_included_index
            <= p.acked(pkt.from, resp.term),
    }
}

/// Whether a member's live log, snapshot boundary and commit point belong to its whole log.
spec fn fits(s: RaftModel, whole: Seq<EntryModel>) -> bool {
    &&& whole.len() == s.last_index()
    &&& s.base_index <= s.commit_index <= whole.len()
    &&& forall|k: int|
        #![trigger whole[k]]
        s.base_index <= k < whole.len() ==> whole[k] == s.log[k - s.base_index]
    &&& s.base_term == term_of(whole, s.base_index as int)
}

/// What a leader keeps.
spec fn leader_inv(ids: Set<Seq<char>>, p: Past, id: Seq<char>, s: RaftModel) -> bool {
    let t = s.current_term;
    &&& p.logs.dom().contains(t)
    &&& p.leads[t] == id
    &&& p.logs[t] == p.full[id]
    &&& p.acked(id, t) == p.logs[t].len()
    &&& forall|q: Seq<char>|
        #![trigger s.match_index[q]]
        s.match_index.dom().contains(q) ==> s.match_index[q] <= p.acked(q, t)
    &&& forall|q: Seq<char>|
        #![trigger s.next_index[q]]
        s.next_index.dom().contains(q) ==> 1 <= s.next_index[q] <= p.logs[t].len() + 1
}

/// What a candidate keeps.
spec fn candidate_inv(ids: Set<Seq<char>>, p: Past, id: Seq<char>, s: RaftModel) -> bool {
    let t = s.current_term;
    &&& p.cands.dom().contains((id, t))
    &&& p.cands[(id, t)] == p.full[id]
    &&& !(p.leads.dom().contains(t) && p.leads[t] == id)
    &&& p.voted(id, t, id)
    &&& s.votes.subset_of(voters(ids, p, t, id))
}

/// Whether everything in a member's outbox is backed.
spec fn outbox_inv(ids: Set<Seq<char>>, p: Past, s: RaftModel) -> bool {
    forall|k: int|
        0 <= k < s.out.len() ==> backed(
            ids,
            p,
            Packet { from: s.id, to: (#[trigger] s.out[k]).to, msg: s.out[k].msg },
        )
}

/// What every member keeps.
spec fn member_inv(ids: Set<Seq<char>>, p: Past, id: Seq<char>, s: RaftModel) -> bool {
    &&& raft_group::configured(ids, id, s)
    &&& p.full.dom().contains(id)
    &&& fits(s, p.full[id])
    &&& p.sound(p.full[id], s.current_term as int)
    &&& settled(ids, p, p.full[id], s.commit_index as int, s.current_term as int)
    &&& s.voted_for is Some == p.votes.dom().contains((id, s.current_term))
    &&& s.voted_for matches Some(c) ==> p.votes[(id, s.current_term)] == c
    &&& forall|u: u64| #[trigger]
        p.votes.dom().contains((id, u)) ==> u <= s.current_term
    &&& forall|u: u64| #[trigger]
        p.cands.dom().contains((id, u)) ==> u <= s.current_term
    &&& p.leads.dom().contains(s.current_term) && p.leads[s.current_term] == id
        ==> p.logs[s.current_term] == p.full[id]
    &&& s.role == Role::Leader ==> leader_inv(ids, p, id, s)
    &&& s.role == Role::Candidate ==> candidate_inv(ids, p, id, s)
    &&& outbox_inv(ids, p, s)
}

/// What holds of every term that had a leader.
spec fn term_inv(ids: Set<Seq<char>>, p: Past, t: u64) -> bool {
    &&& p.leads.dom().contains(t)
    &&& ids.contains(p.leads[t])
    &&& p.voted(p.leads[t], t, p.leads[t])
    &&& majority(ids, voters(ids, p, t, p.leads[t]))
    &&& p.sound(p.logs[t], t as int)
}

/// What holds of every acknowledgement: it stands, or a majority for it is out of reach.
spec fn ack_inv(w: World, p: Past, m: Seq<char>, t: u64) -> bool {
    p.acked(m, t) > 0 ==> {
        &&& w.members.dom().contains(m)
        &&& p.logs.dom().contains(t)
        &&& t <= w.members[m].current_term
        &&& p.acked(m, t) <= p.logs[t].len()
        &&& forall|i: int|
            #![trigger p.own(t, i)]
            i <= p.acked(m, t) && p.own(t, i) ==> agree(p.logs[t], p.full[m], i) || blocked(
                w,
                p,
                t,
                i,
            )
    }
}

/// What holds of every vote: the candidate's log had all that the voter acknowledged before, or a
/// majority for it is out of reach.
spec fn vote_inv(w: World, p: Past, m: Seq<char>, u: u64) -> bool {
    let c = p.votes[(m, u)];
    &&& w.members.dom().contains(m)
    &&& p.cands.dom().contains((c, u))
    &&& forall|t: u64, i: int|
        #![trigger p.own(t, i)]
        t < u && i <= p.acked(m, t) && p.own(t, i) ==> agree(p.logs[t], p.cands[(c, u)], i)
            || blocked(w, p, t, i)
}

/// What holds of every candidacy.
spec fn cand_inv(ids: Set<Seq<char>>, p: Past, c: Seq<char>, u: u64) -> bool {
    &&& ids.contains(c)
    &&& u >= 1
    &&& p.sound(p.cands[(c, u)], u - 1)
}

/// Later leaders have what an earlier one put in its log, or a majority for it is out of reach.
spec fn pair_inv(w: World, p: Past, t: u64, u: u64, i: int) -> bool {
    t < u && p.own(t, i) && p.logs.dom().contains(u) ==> agree(p.logs[t], p.logs[u], i) || blocked(
        w,
        p,
        t,
        i,
    )
}

/// What holds of the whole group.
#[verifier::opaque]
spec fn inv(w: World, p: Past) -> bool {
    &&& w.members.dom().finite()
    &&& forall|id: Seq<char>| #[trigger]
        w.members.dom().contains(id) ==> member_inv(w.members.dom(), p, id, w.members[id])
    &&& forall|t: u64| #[trigger] p.logs.dom().contains(t) ==> term_inv(w.members.dom(), p, t)
    &&& p.leads.dom() == p.logs.dom()
    &&& forall|m: Seq<char>, t: u64| #[trigger] ack_inv(w, p, m, t)
    &&& forall|m: Seq<char>, u: u64| #[trigger]
        p.votes.dom().contains((m, u)) ==> vote_inv(w, p, m, u)
    &&& forall|c: Seq<char>, u: u64| #[trigger]
        p.cands.dom().contains((c, u)) ==> cand_inv(w.members.dom(), p, c, u)
    &&& forall|t: u64, u: u64, i: int| #[trigger] pair_inv(w, p, t, u, i)
    &&& forall|pkt: Packet| #[trigger]
        w.sent.contains(pkt) ==> backed(w.members.dom(), p, pkt)
}

/// Whether `q` remembers everything that `p` does.
spec fn extends(p: Past, q: Past) -> bool {
    &&& forall|t: u64| #[trigger]
        p.logs.dom().contains(t) ==> {
            &&& q.logs.dom().contains(t)
            &&& agree(p.logs[t], q.logs[t], p.logs[t].len() as int)
            &&& q.leads[t] == p.leads[t]
        }
    &&& forall|k: (Seq<char>, u64)| #[trigger]
        p.votes.dom().contains(k) ==> q.votes.dom().contains(k) && q.votes[k] == p.votes[k]
    &&& forall|k: (Seq<char>, u64)| #[trigger]
        p.cands.dom().contains(k) ==> q.cands.dom().contains(k) && q.cands[k] == p.cands[k]
    &&& forall|m: Seq<char>, t: u64| p.acked(m, t) <= #[trigger] q.acked(m, t)
}

/// Whether only the member `m` moves, to `s`, and what is remembered grows as it does then.
spec fn moves(w: World, p: Past, q: Past, m: Seq<char>, s: RaftModel) -> bool {
    &&& w.members.dom().contains(m)
    &&& w.members[m].current_term <= s.current_term
    &&& extends(p, q)
    &&& forall|id: Seq<char>|
        #![trigger q.full[id]]
        id != m && p.full.dom().contains(id) ==> q.full.dom().contains(id) && q.full[id]
            == p.full[id]
    &&& forall|id: Seq<char>, u: u64| #[trigger]
        q.votes.dom().contains((id, u)) && id != m ==> p.votes.dom().contains((id, u))
    &&& forall|id: Seq<char>, u: u64| #[trigger]
        q.cands.dom().contains((id, u)) && id != m ==> p.cands.dom().contains((id, u))
    &&& forall|id: Seq<char>, t: u64|
        #![trigger q.acked(id, t)]
        q.acked(id, t) != p.acked(id, t) ==> id == m && w.members[m].current_term == t
    &&& forall|t: u64| #[trigger]
        q.logs.dom().contains(t) ==> (p.logs.dom().contains(t) && q.logs[t] == p.logs[t])
            || q.leads[t] == m
    &&& q.leads.dom() == q.logs.dom()
}

/// The world once `m` is `s`.
spec fn moved(w: World, m: Seq<char>, s: RaftModel) -> World {
    World { members: w.members.insert(m, s), ..w }
}

/// What the invariant says of one member.
proof fn of_member(w: World, p: Past, id: Seq<char>)
    requires
        inv(w, p),
        w.members.dom().contains(id),
    ensures
        member_inv(w.members.dom(), p, id, w.members[id]),
        w.members.dom().finite(),
{
    reveal(inv);
}

/// What the invariant says of one term.
proof fn of_term(w: World, p: Past, t: u64)
    requires
        inv(w, p),
        p.logs.dom().contains(t),
    ensures
        term_inv(w.members.dom(), p, t),
        w.members.dom().finite(),
{
    reveal(inv);
}

/// What the invariant says of one acknowledgement.
proof fn of_ack(w: World, p: Past, m: Seq<char>, t: u64)
    requires
        inv(w, p),
    ensures
        ack_inv(w, p, m, t),
{
    reveal(inv);
}

/// What the invariant says of two terms.
proof fn of_pair(w: World, p: Past, t: u64, u: u64, i: int)
    requires
        inv(w, p),
    ensures
        pair_inv(w, p, t, u, i),
        w.members.dom().finite(),
{
    reveal(inv);
}

proof fn agree_trans(
    a: Seq<EntryModel>,
    b: Seq<EntryModel>,
    c: Seq<EntryModel>,
    n: int,
    k: int,
)
    requires
        agree(a, b, n),
        agree(b, c, k),
    ensures
        n <= k ==> agree(a, c, n),
        k <= n ==> agree(a, c, k),
{
    let j = if n <= k {
        n
    } else {
        k
    };
    assert forall|x: int| #![trigger a[x]] #![trigger c[x]] 0 <= x < j implies a[x] == c[x] by {
        assert(a[x] == b[x]);
        assert(b[x] == c[x]);
    }
}

/// Two sound logs with the same term somewhere agree up to there.
proof fn logs_match(p: Past, a: Seq<EntryModel>, b: Seq<EntryModel>, x: int, y: int, n: int)
    requires
        p.sound(a, x),
        p.sound(b, y),
        0 < n <= a.len(),
        n <= b.len(),
        a[n - 1].term == b[n - 1].term,
    ensures
        agree(a, b, n),
{
    let l = p.logs[a[n - 1].term];
    assert(agree(a, l, n));
    assert(agree(b, l, n));
    agree_trans(a, l, b, n, n);
}

/// Terms never fall along a sound log.
proof fn terms_ascend(ids: Set<Seq<char>>, p: Past, a: Seq<EntryModel>, x: int, j: int, k: int)
    requires
        p.sound(a, x),
        0 <= j <= k < a.len(),
        term_inv(ids, p, a[k].term),
    ensures
        a[j].term <= a[k].term,
{
    let l = p.logs[a[k].term];
    assert(agree(a, l, k + 1));
    assert(a[j] == l[j]);
}

proof fn majorities_meet(ids: Set<Seq<char>>, a: Set<Seq<char>>, b: Set<Seq<char>>) -> (m: Seq<
    char,
>)
    requires
        ids.finite(),
        a.subset_of(ids),
        b.subset_of(ids),
        majority(ids, a),
        majority(ids, b),
    ensures
        a.contains(m),
        b.contains(m),
{
    vstd::set_lib::lemma_len_subset(a, ids);
    vstd::set_lib::lemma_len_subset(b, ids);
    if forall|x: Seq<char>| !(a.contains(x) && b.contains(x)) {
        vstd::set_lib::lemma_set_disjoint_lens(a, b);
        vstd::set_lib::lemma_len_subset(a.union(b), ids);
        assert(false);
    }
    choose|x: Seq<char>| a.contains(x) && b.contains(x)
}

proof fn larger_majority(ids: Set<Seq<char>>, a: Set<Seq<char>>, b: Set<Seq<char>>)
    requires
        ids.finite(),
        a.subset_of(b),
        b.subset_of(ids),
        majority(ids, a),
    ensures
        majority(ids, b),
{
    vstd::set_lib::lemma_len_subset(b, ids);
    vstd::set_lib::lemma_len_subset(a, b);
}

proof fn sound_extends(p: Past, q: Past, log: Seq<EntryModel>, x: int)
    requires
        extends(p, q),
        p.sound(log, x),
    ensures
        q.sound(log, x),
{
    assert forall|k: int| 0 <= k < log.len() implies {
        &&& 1 <= (#[trigger] log[k]).term <= x
        &&& log[k].index == k + 1
        &&& q.logs.dom().contains(log[k].term)
        &&& agree(log, q.logs[log[k].term], k + 1)
    } by {
        let t = log[k].term;
        assert(p.logs.dom().contains(t));
        agree_trans(log, p.logs[t], q.logs[t], k + 1, p.logs[t].len() as int);
    }
}

proof fn own_extends(p: Past, q: Past, t: u64, i: int)
    requires
        extends(p, q),
    ensures
        p.own(t, i) ==> q.own(t, i),
        q.own(t, i) && p.logs.dom().contains(t) && i <= p.logs[t].len() ==> p.own(t, i),
{
    if p.logs.dom().contains(t) && 0 < i <= p.logs[t].len() {
        assert(p.logs[t][i - 1] == q.logs[t][i - 1]);
    }
}

proof fn voters_extend(ids: Set<Seq<char>>, p: Past, q: Past, t: u64, c: Seq<char>)
    requires
        ids.finite(),
        extends(p, q),
        majority(ids, voters(ids, p, t, c)),
    ensures
        majority(ids, voters(ids, q, t, c)),
{
    larger_majority(ids, voters(ids, p, t, c), voters(ids, q, t, c));
}

proof fn chosen_extends(ids: Set<Seq<char>>, p: Past, q: Past, t: u64, i: int)
    requires
        ids.finite(),
        extends(p, q),
        chosen(ids, p, t, i),
    ensures
        chosen(ids, q, t, i),
{
    own_extends(p, q, t, i);
    let a = ackers(ids, p, t, i);
    let b = ackers(ids, q, t, i);
    assert forall|m: Seq<char>| a.contains(m) implies b.contains(m) by {
        assert(p.acked(m, t) <= q.acked(m, t));
    }
    larger_majority(ids, a, b);
}

/// What is settled stays so, also in a log that continues.
proof fn settled_extends(
    ids: Set<Seq<char>>,
    p: Past,
    q: Past,
    a: Seq<EntryModel>,
    b: Seq<EntryModel>,
    k: int,
    x: int,
    y: int,
)
    requires
        ids.finite(),
        extends(p, q),
        settled(ids, p, a, k, x),
        agree(a, b, k),
        x <= y,
    ensures
        settled(ids, q, b, k, y),
{
    if k != 0 {
        let (t, i) = choose|t: u64, i: int|
            #[trigger] chosen(ids, p, t, i) && t <= x && k <= i && agree(a, p.logs[t], k);
        chosen_extends(ids, p, q, t, i);
        agree_trans(b, a, p.logs[t], k, k);
        agree_trans(b, p.logs[t], q.logs[t], k, p.logs[t].len() as int);
    }
}

proof fn backed_extends(ids: Set<Seq<char>>, p: Past, q: Past, pkt: Packet)
    requires
        ids.finite(),
        extends(p, q),
        backed(ids, p, pkt),
    ensures
        backed(ids, q, pkt),
{
    match pkt.msg {
        MessageModel::AppendEntries(req) => {
            let a = p.logs[req.term];
            let b = q.logs[req.term];
            assert(agree(a, b, a.len() as int));
            settled_extends(
                ids,
                p,
                q,
                a,
                b,
                req.leader_commit as int,
                req.term as int,
                req.term as int,
            );
            assert forall|k: int| 0 <= k < req.entries.len() implies (#[trigger] req.entries[k])
                == b[req.prev_log_index + k] by {
                assert(a[req.prev_log_index + k] == b[req.prev_log_index + k]);
            }
            if req.prev_log_index > 0 {
                assert(a[req.prev_log_index - 1] == b[req.prev_log_index - 1]);
            }
        },
        MessageModel::InstallSnapshot(req) => {
            let a = p.logs[req.term];
            let b = q.logs[req.term];
            assert(agree(a, b, a.len() as int));
            settled_extends(
                ids,
                p,
                q,
                a,
                b,
                req.last_included_index as int,
                req.term as int,
                req.term as int,
            );
            assert(a[req.last_included_index - 1] == b[req.last_included_index - 1]);
        },
        MessageModel::AppendEntriesResp(resp) => {
            assert(p.acked(pkt.from, resp.term) <= q.acked(pkt.from, resp.term));
        },
        MessageModel::InstallSnapshotResp(resp) => {
            assert(p.acked(pkt.from, resp.term) <= q.acked(pkt.from, resp.term));
        },
        _ => {},
    }
}

proof fn outbox_extends(ids: Set<Seq<char>>, p: Past, q: Past, s: RaftModel)
    requires
        ids.finite(),
        extends(p, q),
        outbox_inv(ids, p, s),
    ensures
        outbox_inv(ids, q, s),
{
    assert forall|k: int| 0 <= k < s.out.len() implies backed(
        ids,
        q,
        Packet { from: s.id, to: (#[trigger] s.out[k]).to, msg: s.out[k].msg },
    ) by {
        backed_extends(ids, p, q, Packet { from: s.id, to: s.out[k].to, msg: s.out[k].msg });
    }
}

proof fn blocked_stays(w: World, p: Past, q: Past, m: Seq<char>, s: RaftModel, t: u64, i: int)
    requires
        w.members.dom().finite(),
        moves(w, p, q, m, s),
        blocked(w, p, t, i),
    ensures
        blocked(moved(w, m, s), q, t, i),
{
    let v = moved(w, m, s);
    assert(v.members.dom() =~= w.members.dom());
    let a = openers(v, q, t, i);
    let b = openers(w, p, t, i);
    assert forall|x: Seq<char>| a.contains(x) implies b.contains(x) by {
        if q.acked(x, t) != p.acked(x, t) {
            assert(x == m);
        }
    }
    if majority(v.members.dom(), a) {
        larger_majority(w.members.dom(), a, b);
    }
}

proof fn member_stays(w: World, p: Past, q: Past, m: Seq<char>, s: RaftModel, id: Seq<char>)
    requires
        inv(w, p),
        moves(w, p, q, m, s),
        w.members.dom().contains(id),
        id != m,
    ensures
        member_inv(w.members.dom(), q, id, w.members[id]),
{
    reveal(inv);
    let ids = w.members.dom();
    let a = w.members[id];
    let t = a.current_term;
    assert(member_inv(ids, p, id, a));
    assert(q.full[id] == p.full[id]);
    sound_extends(p, q, p.full[id], t as int);
    settled_extends(
        ids,
        p,
        q,
        p.full[id],
        p.full[id],
        a.commit_index as int,
        t as int,
        t as int,
    );
    outbox_extends(ids, p, q, a);
    assert(p.votes.dom().contains((id, t)) ==> q.votes.dom().contains((id, t)));
    if a.role == Role::Leader {
        assert(q.logs.dom().contains(t));
        assert(q.acked(id, t) == p.acked(id, t));
        assert forall|x: Seq<char>|
            #![trigger a.match_index[x]]
            a.match_index.dom().contains(x) implies a.match_index[x] <= q.acked(x, t) by {
            assert(p.acked(x, t) <= q.acked(x, t));
        }
    }
    if a.role == Role::Candidate {
        assert(voters(ids, p, t, id).subset_of(voters(ids, q, t, id)));
        assert(p.cands.dom().contains((id, t)));
        if q.leads.dom().contains(t) && q.leads[t] == id {
            assert(q.logs.dom().contains(t));
            assert(p.logs.dom().contains(t));
            assert(term_inv(ids, p, t));
        }
    }
}

proof fn ack_stays(
    w: World,
    p: Past,
    q: Past,
    m: Seq<char>,
    s: RaftModel,
    id: Seq<char>,
    t: u64,
)
    requires
        inv(w, p),
        moves(w, p, q, m, s),
        id != m,
    ensures
        ack_inv(moved(w, m, s), q, id, t),
{
    reveal(inv);
    assert(ack_inv(w, p, id, t));
    assert(q.acked(id, t) == p.acked(id, t));
    if p.acked(id, t) > 0 {
        assert(w.members.dom().contains(id));
        assert(member_inv(w.members.dom(), p, id, w.members[id]));
        assert(q.full[id] == p.full[id]);
        assert forall|i: int|
            #![trigger q.own(t, i)]
            i <= q.acked(id, t) && q.own(t, i) implies agree(q.logs[t], q.full[id], i) || blocked(
            moved(w, m, s),
            q,
            t,
            i,
        ) by {
            own_extends(p, q, t, i);
            assert(p.own(t, i));
            if blocked(w, p, t, i) {
                blocked_stays(w, p, q, m, s, t, i);
            } else {
                agree_trans(q.logs[t], p.logs[t], p.full[id], i, i);
            }
        }
    }
}

proof fn vote_stays(
    w: World,
    p: Past,
    q: Past,
    m: Seq<char>,
    s: RaftModel,
    x: Seq<char>,
    u: u64,
)
    requires
        inv(w, p),
        moves(w, p, q, m, s),
        p.votes.dom().contains((x, u)),
    ensures
        vote_inv(moved(w, m, s), q, x, u),
{
    reveal(inv);
    let c = p.votes[(x, u)];
    assert(vote_inv(w, p, x, u));
    assert(member_inv(w.members.dom(), p, x, w.members[x]));
    assert(p.cands.dom().contains((c, u)));
    assert forall|t: u64, i: int|
        #![trigger q.own(t, i)]
        t < u && i <= q.acked(x, t) && q.own(t, i) implies agree(q.logs[t], q.cands[(c, u)], i)
        || blocked(moved(w, m, s), q, t, i) by {
        assert(q.acked(x, t) == p.acked(x, t));
        assert(ack_inv(w, p, x, t));
        own_extends(p, q, t, i);
        assert(p.own(t, i));
        if blocked(w, p, t, i) {
            blocked_stays(w, p, q, m, s, t, i);
        } else {
            agree_trans(q.logs[t], p.logs[t], p.cands[(c, u)], i, i);
        }
    }
}

proof fn pair_stays(
    w: World,
    p: Past,
    q: Past,
    m: Seq<char>,
    s: RaftModel,
    t: u64,
    u: u64,
    i: int,
)
    requires
        inv(w, p),
        moves(w, p, q, m, s),
        p.own(t, i),
        p.logs.dom().contains(u),
    ensures
        pair_inv(moved(w, m, s), q, t, u, i),
{
    reveal(inv);
    if t < u {
        assert(pair_inv(w, p, t, u, i));
        if blocked(w, p, t, i) {
            blocked_stays(w, p, q, m, s, t, i);
        } else {
            agree_trans(p.logs[t], p.logs[u], q.logs[u], i, p.logs[u].len() as int);
            agree_trans(q.logs[t], p.logs[t], q.logs[u], i, i);
        }
    }
}

/// A member moves: what concerns only others stays as it is.
proof fn carried(w: World, p: Past, q: Past, m: Seq<char>, s: RaftModel)
    requires
        inv(w, p),
        moves(w, p, q, m, s),
        member_inv(w.members.dom(), q, m, s),
        forall|t: u64| #[trigger] ack_inv(moved(w, m, s), q, m, t),
        forall|t: u64| #[trigger]
            q.logs.dom().contains(t) && !(p.logs.dom().contains(t) && p.logs[t] == q.logs[t])
                ==> term_inv(w.members.dom(), q, t),
        forall|t: u64, u: u64, i: int|
            !(p.own(t, i) && p.logs.dom().contains(u)) ==> #[trigger] pair_inv(
                moved(w, m, s),
                q,
                t,
                u,
                i,
            ),
        forall|u: u64| #[trigger]
            q.votes.dom().contains((m, u)) && !p.votes.dom().contains((m, u)) ==> vote_inv(
                moved(w, m, s),
                q,
                m,
                u,
            ),
        forall|u: u64| #[trigger]
            q.cands.dom().contains((m, u)) && !p.cands.dom().contains((m, u)) ==> cand_inv(
                w.members.dom(),
                q,
                m,
                u,
            ),
    ensures
        inv(moved(w, m, s), q),
{
    reveal(inv);
    let v = moved(w, m, s);
    let ids = w.members.dom();
    assert(v.members.dom() =~= ids);
    assert forall|id: Seq<char>| #[trigger] v.members.dom().contains(id) implies member_inv(
        ids,
        q,
        id,
        v.members[id],
    ) by {
        if id != m {
            member_stays(w, p, q, m, s, id);
        }
    }
    assert forall|t: u64| #[trigger] q.logs.dom().contains(t) implies term_inv(ids, q, t) by {
        if p.logs.dom().contains(t) && p.logs[t] == q.logs[t] {
            assert(term_inv(ids, p, t));
            sound_extends(p, q, p.logs[t], t as int);
            voters_extend(ids, p, q, t, p.leads[t]);
        }
    }
    assert forall|x: Seq<char>, t: u64| #[trigger] ack_inv(v, q, x, t) by {
        if x != m {
            ack_stays(w, p, q, m, s, x, t);
        }
    }
    assert forall|x: Seq<char>, u: u64| #[trigger]
        q.votes.dom().contains((x, u)) implies vote_inv(v, q, x, u) by {
        if p.votes.dom().contains((x, u)) {
            vote_stays(w, p, q, m, s, x, u);
        }
    }
    assert forall|c: Seq<char>, u: u64| #[trigger]
        q.cands.dom().contains((c, u)) implies cand_inv(ids, q, c, u) by {
        if p.cands.dom().contains((c, u)) {
            assert(cand_inv(ids, p, c, u));
            sound_extends(p, q, p.cands[(c, u)], u - 1);
        }
    }
    assert forall|t: u64, u: u64, i: int| #[trigger] pair_inv(v, q, t, u, i) by {
        if p.own(t, i) && p.logs.dom().contains(u) {
            pair_stays(w, p, q, m, s, t, u, i);
        }
    }
    assert forall|pkt: Packet| #[trigger] v.sent.contains(pkt) implies backed(ids, q, pkt) by {
        backed_extends(ids, p, q, pkt);
    }
}

/// A member moves without anything new to remember.
proof fn same_past(w: World, p: Past, m: Seq<char>, s: RaftModel)
    requires
        inv(w, p),
        w.members.dom().contains(m),
        w.members[m].current_term <= s.current_term,
        member_inv(w.members.dom(), p, m, s),
    ensures
        inv(moved(w, m, s), p),
{
    reveal(inv);
    assert(moves(w, p, p, m, s));
    assert forall|t: u64| #[trigger] ack_inv(moved(w, m, s), p, m, t) by {
        assert(ack_inv(w, p, m, t));
        assert forall|i: int|
            #![trigger p.own(t, i)]
            p.acked(m, t) > 0 && i <= p.acked(m, t) && p.own(t, i) implies agree(
            p.logs[t],
            p.full[m],
            i,
        ) || blocked(moved(w, m, s), p, t, i) by {
            if blocked(w, p, t, i) {
                blocked_stays(w, p, p, m, s, t, i);
            }
        }
    }
    assert forall|t: u64, u: u64, i: int|
        !(p.own(t, i) && p.logs.dom().contains(u)) implies #[trigger] pair_inv(
        moved(w, m, s),
        p,
        t,
        u,
        i,
    ) by {}
    carried(w, p, p, m, s);
}

/// Whether a member keeps everything its peers may rely on: it may forget that it was leading or
/// campaigning, lose its outbox, or change its timers.
spec fn quiet(s: RaftModel, t: RaftModel) -> bool {
    &&& t.id == s.id
    &&& t.peers == s.peers
    &&& t.current_term == s.current_term
    &&& t.voted_for == s.voted_for
    &&& t.log == s.log
    &&& t.base_index == s.base_index
    &&& t.base_term == s.base_term
    &&& t.commit_index == s.commit_index
    &&& t.out == s.out || t.out.len() == 0
    &&& match t.role {
        Role::Leader => s.role == Role::Leader && t.next_index == s.next_index && t.match_index
            == s.match_index,
        Role::Candidate => s.role == Role::Candidate && t.votes == s.votes,
        _ => true,
    }
}

proof fn quiet_step(w: World, p: Past, m: Seq<char>, t: RaftModel)
    requires
        inv(w, p),
        w.members.dom().contains(m),
        quiet(w.members[m], t),
    ensures
        inv(moved(w, m, t), p),
{
    let s = w.members[m];
    of_member(w, p, m);
    assert(fits(t, p.full[m]));
    same_past(w, p, m, t);
}

/// Whoever led a term voted in it.
proof fn led_by_voter(w: World, p: Past, t: u64)
    requires
        inv(w, p),
        p.leads.dom().contains(t),
    ensures
        p.logs.dom().contains(t),
        p.votes.dom().contains((p.leads[t], t)),
{
    reveal(inv);
    assert(term_inv(w.members.dom(), p, t));
}

/// A member adopts a newer term.
proof fn adopt_step(w: World, p: Past, m: Seq<char>, t: RaftModel)
    requires
        inv(w, p),
        w.members.dom().contains(m),
        t.current_term > w.members[m].current_term,
        t.voted_for is None,
        t.role == Role::Follower,
        quiet(
            w.members[m],
            (RaftModel {
                current_term: w.members[m].current_term,
                voted_for: w.members[m].voted_for,
                ..t
            }),
        ),
    ensures
        inv(moved(w, m, t), p),
{
    let s = w.members[m];
    let ids = w.members.dom();
    of_member(w, p, m);
    assert(fits(t, p.full[m]));
    settled_extends(
        ids,
        p,
        p,
        p.full[m],
        p.full[m],
        s.commit_index as int,
        s.current_term as int,
        t.current_term as int,
    );
    assert(!p.votes.dom().contains((m, t.current_term)));
    if p.leads.dom().contains(t.current_term) && p.leads[t.current_term] == m {
        led_by_voter(w, p, t.current_term);
    }
    same_past(w, p, m, t);
}

proof fn follow_step(w: World, p: Past, m: Seq<char>, term: u64, leader: Option<Seq<char>>)
    requires
        inv(w, p),
        w.members.dom().contains(m),
    ensures
        inv(moved(w, m, w.members[m].following(term, leader)), p),
{
    let s = w.members[m];
    let t = s.following(term, leader);
    if term > s.current_term {
        adopt_step(w, p, m, t);
    } else {
        quiet_step(w, p, m, t);
    }
}

/// A member puts a backed message into its outbox.
proof fn send_step(w: World, p: Past, m: Seq<char>, to: Seq<char>, msg: MessageModel)
    requires
        inv(w, p),
        w.members.dom().contains(m),
        backed(w.members.dom(), p, (Packet { from: m, to, msg })),
    ensures
        inv(moved(w, m, w.members[m].sending(to, msg)), p),
{
    let s = w.members[m];
    let t = s.sending(to, msg);
    of_member(w, p, m);
    assert forall|k: int| 0 <= k < t.out.len() implies backed(
        w.members.dom(),
        p,
        Packet { from: t.id, to: (#[trigger] t.out[k]).to, msg: t.out[k].msg },
    ) by {
        if k < s.out.len() {
            assert(t.out[k] == s.out[k]);
        }
    }
    assert(fits(t, p.full[m]));
    same_past(w, p, m, t);
}

proof fn send_all_step(w: World, p: Past, m: Seq<char>, to: Seq<Seq<char>>, msg: MessageModel)
    requires
        inv(w, p),
        w.members.dom().contains(m),
        forall|x: Seq<char>| #[trigger]
            backed(w.members.dom(), p, (Packet { from: m, to: x, msg })),
    ensures
        inv(moved(w, m, w.members[m].sending_all(to, msg)), p),
{
    let s = w.members[m];
    let t = s.sending_all(to, msg);
    of_member(w, p, m);
    assert forall|k: int| 0 <= k < t.out.len() implies backed(
        w.members.dom(),
        p,
        Packet { from: t.id, to: (#[trigger] t.out[k]).to, msg: t.out[k].msg },
    ) by {
        if k < s.out.len() {
            assert(t.out[k] == s.out[k]);
        } else {
            assert(t.out[k].msg == msg);
            assert(backed(w.members.dom(), p, Packet { from: m, to: t.out[k].to, msg }));
        }
    }
    assert(fits(t, p.full[m]));
    same_past(w, p, m, t);
}

/// The state of a candidate before it asks for votes.
spec fn campaigner(s: RaftModel) -> RaftModel {
    RaftModel {
        votes: Set::empty().insert(s.id),
        ..(RaftModel {
            current_term: (s.current_term + 1) as u64,
            voted_for: Some(s.id),
            dirty: true,
            role: Role::Candidate,
            leader_id: None,
            ..s
        }).timer_reset()
    }
}

/// A member starts a campaign.
proof fn campaign_step(w: World, p: Past, m: Seq<char>) -> (q: Past)
    requires
        inv(w, p),
        w.members.dom().contains(m),
        w.members[m].current_term < u64::MAX,
    ensures
        extends(p, q),
        inv(moved(w, m, campaigner(w.members[m])), q),
{
    reveal(inv);
    let ids = w.members.dom();
    let s = w.members[m];
    let t = campaigner(s);
    let u = t.current_term;
    assert(member_inv(ids, p, m, s));
    let q = Past {
        votes: p.votes.insert((m, u), m),
        cands: p.cands.insert((m, u), p.full[m]),
        ..p
    };
    let v = moved(w, m, t);
    assert(!p.votes.dom().contains((m, u)));
    assert(!p.cands.dom().contains((m, u)));
    assert forall|x: Seq<char>, y: u64| #[trigger] q.acked(x, y) == p.acked(x, y) by {}
    assert(extends(p, q));
    assert(moves(w, p, q, m, t));
    // The member itself.
    sound_extends(p, q, p.full[m], s.current_term as int);
    settled_extends(
        ids,
        p,
        q,
        p.full[m],
        p.full[m],
        s.commit_index as int,
        s.current_term as int,
        u as int,
    );
    outbox_extends(ids, p, q, s);
    assert(candidate_inv(ids, q, m, t)) by {
        if q.leads.dom().contains(u) && q.leads[u] == m {
            assert(term_inv(ids, p, u));
        }
        assert(t.votes.subset_of(voters(ids, q, u, m)));
    }
    assert(fits(t, q.full[m]));
    assert(member_inv(ids, q, m, t));
    // Its acknowledgements and its vote.
    assert forall|x: u64| #[trigger] ack_inv(v, q, m, x) by {
        assert(ack_inv(w, p, m, x));
        assert forall|i: int|
            #![trigger q.own(x, i)]
            q.acked(m, x) > 0 && i <= q.acked(m, x) && q.own(x, i) implies agree(
            q.logs[x],
            q.full[m],
            i,
        ) || blocked(v, q, x, i) by {
            assert(p.own(x, i));
            if blocked(w, p, x, i) {
                blocked_stays(w, p, q, m, t, x, i);
            }
        }
    }
    assert(vote_inv(v, q, m, u)) by {
        assert forall|x: u64, i: int|
            #![trigger q.own(x, i)]
            x < u && i <= q.acked(m, x) && q.own(x, i) implies agree(q.logs[x], q.cands[(m, u)], i)
            || blocked(v, q, x, i) by {
            assert(ack_inv(v, q, m, x));
        }
    }
    assert(cand_inv(ids, q, m, u));
    assert forall|x: u64, y: u64, i: int|
        !(p.own(x, i) && p.logs.dom().contains(y)) implies #[trigger] pair_inv(v, q, x, y, i) by {
        assert(q.own(x, i) == p.own(x, i));
    }
    carried(w, p, q, m, t);
    q
}

/// A candidate counts a vote.
proof fn count_step(w: World, p: Past, m: Seq<char>, from: Seq<char>)
    requires
        inv(w, p),
        w.members.dom().contains(m),
        w.members.dom().contains(from),
        w.members[m].role == Role::Candidate,
        p.voted(from, w.members[m].current_term, m),
    ensures
        inv(moved(w, m, (RaftModel { votes: w.members[m].votes.insert(from), ..w.members[m] })), p),
{
    let s = w.members[m];
    let t = RaftModel { votes: s.votes.insert(from), ..s };
    of_member(w, p, m);
    assert(fits(t, p.full[m]));
    same_past(w, p, m, t);
}

/// A candidate whose log is not behind the voter's has every entry the voter acknowledged to an
/// earlier leader, or a majority for that entry is out of reach.
proof fn candidate_has(
    w: World,
    p: Past,
    m: Seq<char>,
    c: Seq<char>,
    req: VoteModel,
    t: u64,
    i: int,
)
    requires
        inv(w, p),
        w.members.dom().contains(m),
        backed(w.members.dom(), p, (Packet { from: c, to: m, msg: MessageModel::RequestVote(req) })),
        !req.pre_vote,
        w.members[m].log_not_behind(req),
        t < req.term,
        i <= p.acked(m, t),
        p.own(t, i),
        !blocked(w, p, t, i),
    ensures
        agree(p.logs[t], p.cands[(c, req.term)], i),
{
    reveal(inv);
    let ids = w.members.dom();
    let s = w.members[m];
    let f = p.full[m];
    let l = p.logs[t];
    let log = p.cands[(c, req.term)];
    assert(member_inv(ids, p, m, s));
    assert(cand_inv(ids, p, c, req.term));
    assert(term_inv(ids, p, t));
    assert(ack_inv(w, p, m, t));
    assert(agree(l, f, i));
    assert(f[i - 1] == l[i - 1]);
    let last = f.len() - 1;
    assert(s.last_term() == f[last].term) by {
        if s.log.len() > 0 {
            assert(f[last] == s.log[last - s.base_index]);
        }
    }
    assert(term_inv(ids, p, f[last].term));
    terms_ascend(ids, p, f, s.current_term as int, i - 1, last);
    assert(l[i - 1].term >= 1);
    assert(log.len() > 0);
    let end = log.len() - 1;
    let x = log[end].term;
    assert(agree(log, p.logs[x], log.len() as int));
    if x == s.last_term() {
        assert(agree(f, p.logs[x], f.len() as int));
        agree_trans(f, p.logs[x], log, f.len() as int, log.len() as int);
        agree_trans(l, f, log, i, f.len() as int);
    } else {
        assert(pair_inv(w, p, t, x, i));
        assert(agree(l, p.logs[x], i));
        if log.len() < i {
            assert(l[end] == p.logs[x][end]);
            assert(log[end] == p.logs[x][end]);
            assert(l[end].term <= t);
            assert(false);
        }
        agree_trans(l, p.logs[x], log, i, log.len() as int);
    }
}

/// A member grants its vote.
proof fn grant_step(w: World, p: Past, m: Seq<char>, c: Seq<char>, req: VoteModel) -> (q: Past)
    requires
        inv(w, p),
        w.members.dom().contains(m),
        backed(w.members.dom(), p, (Packet { from: c, to: m, msg: MessageModel::RequestVote(req) })),
        !req.pre_vote,
        w.members[m].log_not_behind(req),
        req.term == w.members[m].current_term,
        w.members[m].voted_for is None || w.members[m].voted_for == Some(c),
    ensures
        extends(p, q),
        inv(
            moved(
                w,
                m,
                (RaftModel { voted_for: Some(c), dirty: true, ..w.members[m] }).timer_reset(),
            ),
            q,
        ),
        q.voted(m, req.term, c),
{
    reveal(inv);
    let ids = w.members.dom();
    let s = w.members[m];
    let t = (RaftModel { voted_for: Some(c), dirty: true, ..s }).timer_reset();
    let u = req.term;
    assert(member_inv(ids, p, m, s));
    if s.voted_for == Some(c) {
        quiet_step(w, p, m, t);
        p
    } else {
        let q = Past { votes: p.votes.insert((m, u), c), ..p };
        let v = moved(w, m, t);
        assert(!p.votes.dom().contains((m, u)));
        assert forall|x: Seq<char>, y: u64| #[trigger] q.acked(x, y) == p.acked(x, y) by {}
        assert(extends(p, q));
        assert(moves(w, p, q, m, t));
        sound_extends(p, q, p.full[m], u as int);
        settled_extends(
            ids,
            p,
            q,
            p.full[m],
            p.full[m],
            s.commit_index as int,
            u as int,
            u as int,
        );
        outbox_extends(ids, p, q, s);
        assert(fits(t, q.full[m]));
        assert(s.role != Role::Candidate);
        if s.role == Role::Leader {
            assert(term_inv(ids, p, u));
        }
        assert(member_inv(ids, q, m, t));
        assert forall|x: u64| #[trigger] ack_inv(v, q, m, x) by {
            assert(ack_inv(w, p, m, x));
            assert forall|i: int|
                #![trigger q.own(x, i)]
                q.acked(m, x) > 0 && i <= q.acked(m, x) && q.own(x, i) implies agree(
                q.logs[x],
                q.full[m],
                i,
            ) || blocked(v, q, x, i) by {
                assert(p.own(x, i));
                if blocked(w, p, x, i) {
                    blocked_stays(w, p, q, m, t, x, i);
                }
            }
        }
        assert(vote_inv(v, q, m, u)) by {
            assert forall|x: u64, i: int|
                #![trigger q.own(x, i)]
                x < u && i <= q.acked(m, x) && q.own(x, i) implies agree(
                q.logs[x],
                q.cands[(c, u)],
                i,
            ) || blocked(v, q, x, i) by {
                assert(p.own(x, i));
                if blocked(w, p, x, i) {
                    blocked_stays(w, p, q, m, t, x, i);
                } else {
                    candidate_has(w, p, m, c, req, x, i);
                }
            }
        }
        assert forall|x: u64, y: u64, i: int|
            !(p.own(x, i) && p.logs.dom().contains(y)) implies #[trigger] pair_inv(
            v,
            q,
            x,
            y,
            i,
        ) by {
            assert(q.own(x, i) == p.own(x, i));
        }
        carried(w, p, q, m, t);
        q
    }
}

/// The state of a new leader before it replicates.
spec fn leader_of(s: RaftModel) -> RaftModel {
    let crowned = RaftModel {
        role: Role::Leader,
        leader_id: Some(s.id),
        next_index: s.for_each_peer((s.last_index() + 1) as u64),
        match_index: s.for_each_peer(0),
        snapshot_sent: Map::empty(),
        ..s
    };
    (RaftModel {
        heartbeat_elapsed: 0,
        acked_since_check: Set::empty(),
        ..crowned.appending(None)
    }).timer_reset()
}

proof fn group_size(ids: Set<Seq<char>>, m: Seq<char>, s: RaftModel)
    requires
        ids.finite(),
        ids.contains(m),
        raft_group::configured(ids, m, s),
    ensures
        s.peers.len() + 1 == ids.len(),
        s.quorum() == ids.len() / 2 + 1,
        forall|x: Seq<char>| #[trigger] s.peers.contains(x) <==> ids.contains(x) && x != m,
{
    s.peers.unique_seq_to_set();
    assert forall|x: Seq<char>| #[trigger] s.peers.contains(x) <==> ids.contains(x) && x != m by {
        assert(s.peers.to_set().contains(x) == s.peers.contains(x));
    }
}

/// What the log of a new leader has, and which entries of it are out of reach for good.
proof fn new_leader_facts(w: World, p: Past, q: Past, m: Seq<char>, t: RaftModel)
    requires
        inv(w, p),
        w.members.dom().contains(m),
        w.members[m].role == Role::Candidate,
        t.current_term == w.members[m].current_term,
        !p.logs.dom().contains(t.current_term),
        moves(w, p, q, m, t),
        majority(w.members.dom(), voters(w.members.dom(), p, t.current_term, m)),
        q.full.dom().contains(m),
        q.full[m].len() == p.full[m].len() + 1,
        agree(p.full[m], q.full[m], p.full[m].len() as int),
        q.logs == p.logs.insert(t.current_term, q.full[m]),
        q.acked(m, t.current_term) == q.full[m].len(),
        q.sound(q.full[m], t.current_term as int),
        q.leads == p.leads.insert(t.current_term, m),
        q.votes == p.votes,
    ensures
        forall|x: u64| #[trigger] ack_inv(moved(w, m, t), q, m, x),
        term_inv(w.members.dom(), q, t.current_term),
        forall|x: u64, y: u64, i: int|
            !(p.own(x, i) && p.logs.dom().contains(y)) ==> #[trigger] pair_inv(
                moved(w, m, t),
                q,
                x,
                y,
                i,
            ),
{
    reveal(inv);
    let ids = w.members.dom();
    let s = w.members[m];
    let u = t.current_term;
    let f = p.full[m];
    let g = q.full[m];
    let v = moved(w, m, t);
    assert(v.members.dom() =~= ids);
    assert(member_inv(ids, p, m, s));
    assert(cand_inv(ids, p, m, u));
    assert forall|x: u64| #[trigger] ack_inv(v, q, m, x) by {
        assert(ack_inv(w, p, m, x));
        if x != u {
            assert(q.acked(m, x) == p.acked(m, x));
            assert forall|i: int|
                #![trigger q.own(x, i)]
                q.acked(m, x) > 0 && i <= q.acked(m, x) && q.own(x, i) implies agree(
                q.logs[x],
                g,
                i,
            ) || blocked(v, q, x, i) by {
                assert(p.own(x, i));
                if blocked(w, p, x, i) {
                    blocked_stays(w, p, q, m, t, x, i);
                } else {
                    agree_trans(p.logs[x], f, g, i, f.len() as int);
                }
            }
        }
    }
    assert(voters(ids, q, u, m) =~= voters(ids, p, u, m));
    assert(p.voted(m, u, m));
    assert(term_inv(ids, q, u));
    assert forall|x: u64, y: u64, i: int|
        !(p.own(x, i) && p.logs.dom().contains(y)) implies #[trigger] pair_inv(v, q, x, y, i) by {
        if x < y && q.own(x, i) && q.logs.dom().contains(y) {
            if y == u {
                assert(p.own(x, i));
                if blocked(w, p, x, i) {
                    blocked_stays(w, p, q, m, t, x, i);
                } else {
                    let z = majorities_meet(ids, openers(w, p, x, i), voters(ids, p, u, m));
                    assert(member_inv(ids, p, z, w.members[z]));
                    assert(p.votes.dom().contains((z, u)));
                    assert(vote_inv(w, p, z, u));
                    assert(agree(p.logs[x], f, i));
                    agree_trans(p.logs[x], f, g, i, f.len() as int);
                }
            } else {
                assert(p.logs.dom().contains(y));
                assert(x == u);
                if i <= f.len() {
                    assert(g[i - 1] == f[i - 1]);
                    assert(false);
                }
                let a = openers(v, q, u, i);
                if majority(ids, a) {
                    assert(term_inv(ids, p, y));
                    let z = majorities_meet(ids, a, voters(ids, p, y, p.leads[y]));
                    assert(member_inv(ids, p, z, w.members[z]));
                    assert(p.votes.dom().contains((z, y)));
                    assert(z != m);
                    assert(ack_inv(w, p, z, u));
                    assert(q.acked(z, u) == p.acked(z, u));
                    assert(false);
                }
            }
        }
    }
}

/// A member with a majority of votes takes over.
proof fn lead_step(w: World, p: Past, m: Seq<char>) -> (q: Past)
    requires
        inv(w, p),
        w.members.dom().contains(m),
        w.members[m].role == Role::Candidate,
        w.members[m].votes.len() >= w.members[m].quorum(),
        w.members[m].last_index() < u64::MAX,
    ensures
        extends(p, q),
        inv(moved(w, m, leader_of(w.members[m])), q),
{
    reveal(inv);
    let ids = w.members.dom();
    let s = w.members[m];
    let t = leader_of(s);
    let u = s.current_term;
    let f = p.full[m];
    assert(member_inv(ids, p, m, s));
    // A majority voted for it.
    assert(majority(ids, voters(ids, p, u, m))) by {
        group_size(ids, m, s);
        vstd::set_lib::lemma_len_subset(voters(ids, p, u, m), ids);
        vstd::set_lib::lemma_len_subset(s.votes, voters(ids, p, u, m));
    }
    // Nobody else led this term.
    if p.logs.dom().contains(u) {
        assert(term_inv(ids, p, u));
        let x = majorities_meet(ids, voters(ids, p, u, m), voters(ids, p, u, p.leads[u]));
        assert(p.leads[u] == m);
        assert(false);
    }
    let e = EntryModel { term: u, index: (s.last_index() + 1) as u64, command: None };
    let g = f.push(e);
    let q = Past {
        full: p.full.insert(m, g),
        logs: p.logs.insert(u, g),
        leads: p.leads.insert(u, m),
        acks: p.acks.insert((m, u), g.len()),
        ..p
    };
    let v = moved(w, m, t);
    assert(ack_inv(w, p, m, u));
    assert(p.acked(m, u) == 0);
    assert forall|x: Seq<char>, y: u64| (x != m || y != u) implies #[trigger] q.acked(x, y)
        == p.acked(x, y) by {}
    assert(q.acked(m, u) == g.len());
    assert(extends(p, q));
    assert(q.leads.dom() =~= q.logs.dom());
    assert(moves(w, p, q, m, t));
    assert(agree(f, g, f.len() as int));
    // Its log.
    sound_extends(p, q, f, u as int);
    assert(q.sound(g, u as int)) by {
        assert forall|k: int| 0 <= k < g.len() implies {
            &&& 1 <= (#[trigger] g[k]).term <= u
            &&& g[k].index == k + 1
            &&& q.logs.dom().contains(g[k].term)
            &&& agree(g, q.logs[g[k].term], k + 1)
        } by {
            if k < f.len() {
                assert(g[k] == f[k]);
                agree_trans(g, f, q.logs[f[k].term], f.len() as int, k + 1);
            } else {
                assert(cand_inv(ids, p, m, u));
            }
        }
    }
    settled_extends(
        ids,
        p,
        q,
        f,
        g,
        s.commit_index as int,
        u as int,
        u as int,
    );
    outbox_extends(ids, p, q, s);
    assert(t.log == s.log.push(e));
    assert(fits(t, g)) by {
        assert forall|k: int|
            #![trigger g[k]]
            t.base_index <= k < g.len() implies g[k] == t.log[k - t.base_index] by {
            if k < f.len() {
                assert(f[k] == s.log[k - s.base_index]);
            }
        }
        if s.base_index > 0 {
            assert(g[s.base_index - 1] == f[s.base_index - 1]);
        }
    }
    assert(leader_inv(ids, q, m, t));
    assert(member_inv(ids, q, m, t));
    new_leader_facts(w, p, q, m, t);
    carried(w, p, q, m, t);
    q
}

/// A leader takes a command into its log.
proof fn append_step(w: World, p: Past, m: Seq<char>, command: Option<CommandModel>) -> (q: Past)
    requires
        inv(w, p),
        w.members.dom().contains(m),
        w.members[m].role == Role::Leader,
        w.members[m].last_index() < u64::MAX,
    ensures
        extends(p, q),
        inv(moved(w, m, w.members[m].appending(command)), q),
{
    reveal(inv);
    let ids = w.members.dom();
    let s = w.members[m];
    let t = s.appending(command);
    let u = s.current_term;
    let f = p.full[m];
    assert(member_inv(ids, p, m, s));
    assert(term_inv(ids, p, u));
    let e = EntryModel { term: u, index: (s.last_index() + 1) as u64, command };
    let g = f.push(e);
    let q = Past {
        full: p.full.insert(m, g),
        logs: p.logs.insert(u, g),
        acks: p.acks.insert((m, u), g.len()),
        ..p
    };
    let v = moved(w, m, t);
    assert(v.members.dom() =~= ids);
    assert forall|x: Seq<char>, y: u64| (x != m || y != u) implies #[trigger] q.acked(x, y)
        == p.acked(x, y) by {}
    assert(q.acked(m, u) == g.len());
    assert(agree(f, g, f.len() as int));
    assert(extends(p, q));
    assert(q.leads.dom() =~= q.logs.dom());
    assert(moves(w, p, q, m, t));
    sound_extends(p, q, f, u as int);
    assert(q.sound(g, u as int)) by {
        assert forall|k: int| 0 <= k < g.len() implies {
            &&& 1 <= (#[trigger] g[k]).term <= u
            &&& g[k].index == k + 1
            &&& q.logs.dom().contains(g[k].term)
            &&& agree(g, q.logs[g[k].term], k + 1)
        } by {
            if k < f.len() {
                assert(g[k] == f[k]);
                agree_trans(g, f, q.logs[f[k].term], f.len() as int, k + 1);
            } else {
                led_terms_are_positive(w, p, u);
            }
        }
    }
    settled_extends(ids, p, q, f, g, s.commit_index as int, u as int, u as int);
    outbox_extends(ids, p, q, s);
    assert(t.log == s.log.push(e));
    assert(fits(t, g)) by {
        assert forall|k: int|
            #![trigger g[k]]
            t.base_index <= k < g.len() implies g[k] == t.log[k - t.base_index] by {
            if k < f.len() {
                assert(f[k] == s.log[k - s.base_index]);
            }
        }
        if s.base_index > 0 {
            assert(g[s.base_index - 1] == f[s.base_index - 1]);
        }
    }
    assert(leader_inv(ids, q, m, t)) by {
        assert forall|x: Seq<char>|
            #![trigger t.match_index[x]]
            t.match_index.dom().contains(x) implies t.match_index[x] <= q.acked(x, u) by {
            assert(s.match_index[x] <= p.acked(x, u));
            assert(p.acked(x, u) <= q.acked(x, u));
        }
    }
    assert(member_inv(ids, q, m, t));
    voters_extend(ids, p, q, u, m);
    assert(term_inv(ids, q, u));
    assert forall|x: u64| #[trigger] ack_inv(v, q, m, x) by {
        assert(ack_inv(w, p, m, x));
        if x != u {
            assert(q.acked(m, x) == p.acked(m, x));
            assert forall|i: int|
                #![trigger q.own(x, i)]
                q.acked(m, x) > 0 && i <= q.acked(m, x) && q.own(x, i) implies agree(
                q.logs[x],
                g,
                i,
            ) || blocked(v, q, x, i) by {
                assert(p.own(x, i));
                if blocked(w, p, x, i) {
                    blocked_stays(w, p, q, m, t, x, i);
                } else {
                    agree_trans(p.logs[x], f, g, i, f.len() as int);
                }
            }
        }
    }
    assert forall|x: u64, y: u64, i: int|
        !(p.own(x, i) && p.logs.dom().contains(y)) implies #[trigger] pair_inv(v, q, x, y, i) by {
        if x < y && q.own(x, i) && q.logs.dom().contains(y) {
            assert(x == u && i == g.len()) by {
                if x == u && i <= f.len() {
                    assert(g[i - 1] == f[i - 1]);
                }
            }
            let a = openers(v, q, u, i);
            if majority(ids, a) {
                assert(term_inv(ids, p, y));
                let z = majorities_meet(ids, a, voters(ids, p, y, p.leads[y]));
                assert(member_inv(ids, p, z, w.members[z]));
                assert(p.votes.dom().contains((z, y)));
                assert(z != m);
                assert(ack_inv(w, p, z, u));
                assert(q.acked(z, u) == p.acked(z, u));
                assert(false);
            }
        }
    }
    carried(w, p, q, m, t);
    q
}

proof fn led_terms_are_positive(w: World, p: Past, t: u64)
    requires
        inv(w, p),
        p.logs.dom().contains(t),
    ensures
        t >= 1,
{
    reveal(inv);
    let c = p.leads[t];
    assert(term_inv(w.members.dom(), p, t));
    assert(p.votes.dom().contains((c, t)));
    assert(vote_inv(w, p, c, t));
    assert(p.cands.dom().contains((c, t)));
    assert(cand_inv(w.members.dom(), p, c, t));
}

proof fn moved_twice(w: World, m: Seq<char>, s: RaftModel, t: RaftModel)
    ensures
        moved(moved(w, m, s), m, t) == moved(w, m, t),
        moved(w, m, s).members[m] == s,
        w.members.dom().contains(m) ==> moved(w, m, s).members.dom() == w.members.dom(),
{
    assert(moved(moved(w, m, s), m, t).members =~= moved(w, m, t).members);
    if w.members.dom().contains(m) {
        assert(moved(w, m, s).members.dom() =~= w.members.dom());
    }
}

/// The start of what is settled is settled.
proof fn settled_less(
    ids: Set<Seq<char>>,
    p: Past,
    log: Seq<EntryModel>,
    k: int,
    j: int,
    x: int,
)
    requires
        settled(ids, p, log, k, x),
        0 <= j <= k,
    ensures
        settled(ids, p, log, j, x),
{
    if j != 0 {
        let (t, i) = choose|t: u64, i: int|
            #[trigger] chosen(ids, p, t, i) && t <= x && k <= i && agree(log, p.logs[t], k);
        assert(agree(log, p.logs[t], j));
    }
}

/// A whole log fits in the machine's integers.
proof fn full_is_small(p: Past, log: Seq<EntryModel>, x: int)
    requires
        p.sound(log, x),
    ensures
        log.len() <= u64::MAX,
{
    if log.len() > 0 {
        assert(log[log.len() - 1].index == log.len());
    }
}

/// A leader replicates to one peer.
proof fn replicate_step(w: World, p: Past, m: Seq<char>, peer: Seq<char>)
    requires
        inv(w, p),
        w.members.dom().contains(m),
        w.members[m].role == Role::Leader,
    ensures
        inv(moved(w, m, w.members[m].replicating(peer)), p),
{
    let ids = w.members.dom();
    let s = w.members[m];
    let f = p.full[m];
    let u = s.current_term;
    of_member(w, p, m);
    full_is_small(p, f, u as int);
    let next = if s.next_index.dom().contains(peer) {
        s.next_index[peer] as int
    } else {
        s.last_index() + 1
    };
    if next > s.base_index {
        let msg = s.append_request(next);
        let prev = next - 1;
        assert(s.term_at(prev) == term_of(f, prev)) by {
            if prev > s.base_index {
                assert(f[prev - 1] == s.log[prev - 1 - s.base_index]);
            }
        }
        assert(backed(ids, p, Packet { from: m, to: peer, msg })) by {
            if next <= s.last_index() {
                let entries = s.log.skip(next - s.base_index - 1);
                assert forall|k: int| 0 <= k < entries.len() implies #[trigger] entries[k]
                    == f[prev + k] by {
                    assert(f[prev + k] == s.log[prev + k - s.base_index]);
                }
            }
        }
        send_step(w, p, m, peer, msg);
    } else if s.snapshot is Some {
        let shipped = RaftModel {
            snapshot_sent: s.snapshot_sent.insert(peer, s.base_index),
            ..s
        };
        quiet_step(w, p, m, shipped);
        let v = moved(w, m, shipped);
        moved_twice(w, m, shipped, s.replicating(peer));
        let msg = MessageModel::InstallSnapshot(
            InstallModel {
                term: u,
                leader_id: s.id,
                last_included_index: s.base_index,
                last_included_term: s.base_term,
                data: s.snapshot->0,
            },
        );
        settled_less(ids, p, f, s.commit_index as int, s.base_index as int, u as int);
        assert(backed(ids, p, Packet { from: m, to: peer, msg }));
        send_step(v, p, m, peer, msg);
    } else {
        quiet_step(w, p, m, s);
    }
}

/// A leader replicates to several peers.
proof fn replicate_all_step(w: World, p: Past, m: Seq<char>, to: Seq<Seq<char>>)
    requires
        inv(w, p),
        w.members.dom().contains(m),
        w.members[m].role == Role::Leader,
    ensures
        inv(moved(w, m, w.members[m].replicating_to(to)), p),
    decreases to.len(),
{
    let s = w.members[m];
    if to.len() == 0 {
        quiet_step(w, p, m, s);
    } else {
        let before = to.drop_last();
        replicate_all_step(w, p, m, before);
        s.replicating_frame(before);
        let t = s.replicating_to(before);
        moved_twice(w, m, t, t.replicating(to.last()));
        replicate_step(moved(w, m, t), p, m, to.last());
    }
}

/// Filtering keeps members distinct.
proof fn filter_distinct(s: Seq<Seq<char>>, f: spec_fn(Seq<char>) -> bool)
    requires
        s.no_duplicates(),
    ensures
        s.filter(f).no_duplicates(),
        forall|x: Seq<char>| #[trigger] s.filter(f).contains(x) <==> s.contains(x) && f(x),
    decreases s.len(),
{
    reveal(Seq::filter);
    if s.len() > 0 {
        let rest = s.drop_last();
        filter_distinct(rest, f);
        let a = rest.filter(f);
        let b = s.filter(f);
        let l = s.last();
        assert(!rest.contains(l));
        assert forall|x: Seq<char>| #[trigger] b.contains(x) <==> s.contains(x) && f(x) by {
            if s.contains(x) {
                let k = choose|k: int| 0 <= k < s.len() && s[k] == x;
                if k < rest.len() {
                    assert(rest[k] == x);
                }
            }
            if rest.contains(x) {
                let k = choose|k: int| 0 <= k < rest.len() && rest[k] == x;
                assert(s[k] == x);
            }
            assert(s[s.len() - 1] == l);
            assert(a.contains(x) == (rest.contains(x) && f(x)));
            if f(l) {
                assert(b == a.push(l));
                if a.contains(x) {
                    let k = choose|k: int| 0 <= k < a.len() && a[k] == x;
                    assert(b[k] == x);
                }
                assert(b[a.len() as int] == l);
                if b.contains(x) && x != l {
                    let k = choose|k: int| 0 <= k < b.len() && b[k] == x;
                    assert(a[k] == x);
                }
            }
        }
        if f(l) {
            assert(b == a.push(l));
            assert(!a.contains(l));
        }
    }
}

/// What a leader may commit is chosen.
proof fn committable_is_chosen(w: World, p: Past, m: Seq<char>, n: int)
    requires
        inv(w, p),
        w.members.dom().contains(m),
        w.members[m].role == Role::Leader,
        w.members[m].commit_index < n <= w.members[m].last_index(),
        w.members[m].committable(n),
    ensures
        chosen(w.members.dom(), p, w.members[m].current_term, n),
{
    let ids = w.members.dom();
    let s = w.members[m];
    let f = p.full[m];
    let u = s.current_term;
    of_member(w, p, m);
    assert(f[n - 1] == s.log[n - 1 - s.base_index]);
    assert(p.own(u, n));
    group_size(ids, m, s);
    let holds = |x: Seq<char>| raft_model::value_or(s.match_index, x, 0) >= n;
    let some = s.peers.filter(holds);
    filter_distinct(s.peers, holds);
    some.unique_seq_to_set();
    assert(s.holders(n) == some.len());
    let all = some.to_set().insert(m);
    assert(!some.to_set().contains(m)) by {
        assert(!some.contains(m));
    }
    assert forall|x: Seq<char>| all.contains(x) implies ackers(ids, p, u, n).contains(x) by {
        if x != m {
            assert(some.contains(x));
            assert(s.match_index.dom().contains(x));
            assert(s.match_index[x] <= p.acked(x, u));
        }
    }
    vstd::seq_lib::seq_to_set_is_finite(some);
    vstd::set_lib::lemma_len_subset(ackers(ids, p, u, n), ids);
    vstd::set_lib::lemma_len_subset(all, ackers(ids, p, u, n));
}

/// A leader moves its commit point.
proof fn advance_step(w: World, p: Past, m: Seq<char>)
    requires
        inv(w, p),
        w.members.dom().contains(m),
        w.members[m].role == Role::Leader,
    ensures
        inv(moved(w, m, w.members[m].advancing()), p),
{
    let ids = w.members.dom();
    let s = w.members[m];
    let t = s.advancing();
    of_member(w, p, m);
    if s.can_advance() {
        let n = s.highest_committable(s.last_index());
        highest_is_committable(s, s.last_index());
        full_is_small(p, p.full[m], s.current_term as int);
        committable_is_chosen(w, p, m, n);
        assert(agree(p.full[m], p.logs[s.current_term], n));
        assert(settled(ids, p, p.full[m], n, s.current_term as int));
        assert(fits(t, p.full[m]));
        same_past(w, p, m, t);
    } else {
        quiet_step(w, p, m, s);
    }
}

proof fn highest_is_committable(s: RaftModel, n: int)
    requires
        n >= s.commit_index,
    ensures
        s.commit_index <= s.highest_committable(n) <= n,
        s.highest_committable(n) > s.commit_index ==> s.committable(s.highest_committable(n)),
    decreases n - s.commit_index,
{
    if n > s.commit_index && !s.committable(n) {
        highest_is_committable(s, n - 1);
    }
}

/// A leader learns how far a peer is.
proof fn match_step(w: World, p: Past, m: Seq<char>, from: Seq<char>, now: u64, t: RaftModel)
    requires
        inv(w, p),
        w.members.dom().contains(m),
        w.members[m].role == Role::Leader,
        now <= p.acked(from, w.members[m].current_term),
        quiet(
            w.members[m],
            (RaftModel {
                match_index: w.members[m].match_index,
                next_index: w.members[m].next_index,
                ..t
            }),
        ),
        t.role == Role::Leader,
        t.match_index == w.members[m].match_index.insert(from, now),
        t.next_index == w.members[m].next_index.insert(
            from,
            raft_model::saturated(now + 1) as u64,
        ),
    ensures
        inv(moved(w, m, t), p),
{
    let ids = w.members.dom();
    let s = w.members[m];
    of_member(w, p, m);
    of_ack(w, p, from, s.current_term);
    assert(fits(t, p.full[m]));
    assert(leader_inv(ids, p, m, t)) by {
        assert forall|x: Seq<char>|
            #![trigger t.match_index[x]]
            t.match_index.dom().contains(x) implies t.match_index[x] <= p.acked(
            x,
            s.current_term,
        ) by {
            if x != from {
                assert(s.match_index[x] <= p.acked(x, s.current_term));
            }
        }
        assert forall|x: Seq<char>|
            #![trigger t.next_index[x]]
            t.next_index.dom().contains(x) implies 1 <= t.next_index[x] <= p.logs[s.current_term].len()
            + 1 by {
            if x != from {
                assert(s.next_index[x] <= p.logs[s.current_term].len() + 1);
            }
        }
    }
    same_past(w, p, m, t);
}

/// A leader goes back in a peer's log.
proof fn rewind_step(w: World, p: Past, m: Seq<char>, from: Seq<char>, next: u64, t: RaftModel)
    requires
        inv(w, p),
        w.members.dom().contains(m),
        w.members[m].role == Role::Leader,
        1 <= next <= w.members[m].last_index() + 1,
        quiet(w.members[m], (RaftModel { next_index: w.members[m].next_index, ..t })),
        t.role == Role::Leader,
        t.next_index == w.members[m].next_index.insert(from, next),
    ensures
        inv(moved(w, m, t), p),
{
    let ids = w.members.dom();
    let s = w.members[m];
    of_member(w, p, m);
    assert(fits(t, p.full[m]));
    assert(leader_inv(ids, p, m, t)) by {
        assert forall|x: Seq<char>|
            #![trigger t.next_index[x]]
            t.next_index.dom().contains(x) implies 1 <= t.next_index[x] <= p.logs[s.current_term].len()
            + 1 by {
            if x != from {
                assert(s.next_index[x] <= p.logs[s.current_term].len() + 1);
            }
        }
    }
    same_past(w, p, m, t);
}

/// Whether a follower's log loses only what the log of its leader contradicts.
spec fn loses_only(
    p: Past,
    m: Seq<char>,
    u: u64,
    f: Seq<EntryModel>,
    g: Seq<EntryModel>,
) -> bool {
    forall|t: u64, i: int|
        #![trigger p.own(t, i)]
        t <= u && i <= p.acked(m, t) && p.own(t, i) && agree(p.logs[t], f, i) ==> agree(
            p.logs[t],
            g,
            i,
        ) || (t < u && !agree(p.logs[t], p.logs[u], i))
}

/// A follower changes its log as its leader tells it, and acknowledges the first `a` entries.
proof fn relog_step(
    w: World,
    p: Past,
    m: Seq<char>,
    t: RaftModel,
    g: Seq<EntryModel>,
    a: nat,
) -> (q: Past)
    requires
        inv(w, p),
        w.members.dom().contains(m),
        w.members[m].role == Role::Follower,
        p.logs.dom().contains(w.members[m].current_term),
        p.leads[w.members[m].current_term] != m,
        quiet(
            w.members[m],
            (RaftModel {
                log: w.members[m].log,
                base_index: w.members[m].base_index,
                base_term: w.members[m].base_term,
                commit_index: w.members[m].commit_index,
                ..t
            }),
        ),
        t.role == Role::Follower,
        fits(t, g),
        p.sound(g, t.current_term as int),
        settled(w.members.dom(), p, g, t.commit_index as int, t.current_term as int),
        loses_only(p, m, t.current_term, p.full[m], g),
        agree(p.logs[t.current_term], g, a as int),
    ensures
        extends(p, q),
        inv(moved(w, m, t), q),
        q.acked(m, t.current_term) >= a,
{
    reveal(inv);
    let ids = w.members.dom();
    let s = w.members[m];
    let f = p.full[m];
    let u = s.current_term;
    assert(member_inv(ids, p, m, s));
    let most = if p.acked(m, u) >= a {
        p.acked(m, u)
    } else {
        a
    };
    let q = Past { full: p.full.insert(m, g), acks: p.acks.insert((m, u), most), ..p };
    let v = moved(w, m, t);
    assert(v.members.dom() =~= ids);
    assert forall|x: Seq<char>, y: u64| (x != m || y != u) implies #[trigger] q.acked(x, y)
        == p.acked(x, y) by {}
    assert(q.acked(m, u) == most);
    assert(extends(p, q));
    assert(moves(w, p, q, m, t));
    sound_extends(p, q, g, u as int);
    settled_extends(ids, p, q, g, g, t.commit_index as int, u as int, u as int);
    outbox_extends(ids, p, q, s);
    assert(member_inv(ids, q, m, t));
    assert forall|x: u64| #[trigger] ack_inv(v, q, m, x) by {
        assert(ack_inv(w, p, m, x));
        assert forall|i: int|
            #![trigger q.own(x, i)]
            q.acked(m, x) > 0 && i <= q.acked(m, x) && q.own(x, i) implies agree(q.logs[x], g, i)
            || blocked(v, q, x, i) by {
            assert(p.own(x, i));
            if x == u && i <= a {
            } else if blocked(w, p, x, i) {
                blocked_stays(w, p, q, m, t, x, i);
            } else {
                assert(i <= p.acked(m, x));
                assert(agree(p.logs[x], f, i));
                if !agree(p.logs[x], g, i) {
                    assert(pair_inv(w, p, x, u, i));
                    assert(false);
                }
            }
        }
    }
    assert forall|x: u64, y: u64, i: int|
        !(p.own(x, i) && p.logs.dom().contains(y)) implies #[trigger] pair_inv(v, q, x, y, i) by {
        assert(q.own(x, i) == p.own(x, i));
    }
    carried(w, p, q, m, t);
    q
}

/// Replacing a log by the start of the leader's, where the two differ there, loses only what the
/// leader's contradicts.
proof fn overwrite_loses_only(
    p: Past,
    m: Seq<char>,
    u: u64,
    f: Seq<EntryModel>,
    n: int,
)
    requires
        0 <= n <= p.logs[u].len(),
        !agree(f, p.logs[u], n),
    ensures
        loses_only(p, m, u, f, p.logs[u].take(n)),
{
    let l = p.logs[u];
    let g = l.take(n);
    assert forall|t: u64, i: int|
        #![trigger p.own(t, i)]
        t <= u && i <= p.acked(m, t) && p.own(t, i) && agree(p.logs[t], f, i) implies agree(
        p.logs[t],
        g,
        i,
    ) || (t < u && !agree(p.logs[t], p.logs[u], i)) by {
        if agree(p.logs[t], l, i) {
            if i <= n {
                assert forall|k: int|
                    #![trigger g[k]]
                    0 <= k < i implies p.logs[t][k] == g[k] by {
                    assert(p.logs[t][k] == l[k]);
                }
                assert forall|k: int|
                    #![trigger p.logs[t][k]]
                    0 <= k < i implies p.logs[t][k] == g[k] by {
                    assert(g[k] == l[k]);
                }
            } else {
                agree_trans(f, p.logs[t], l, i, i);
                assert(agree(f, l, n));
            }
        } else {
            if t == u {
                assert(agree(l, l, i));
            }
        }
    }
}

/// The start of a sound log is sound.
proof fn take_is_sound(p: Past, log: Seq<EntryModel>, x: int, n: int)
    requires
        p.sound(log, x),
        0 <= n <= log.len(),
    ensures
        p.sound(log.take(n), x),
        agree(log, log.take(n), n),
{
    let g = log.take(n);
    assert(agree(log, g, n));
    assert forall|k: int| 0 <= k < g.len() implies {
        &&& 1 <= (#[trigger] g[k]).term <= x
        &&& g[k].index == k + 1
        &&& p.logs.dom().contains(g[k].term)
        &&& agree(g, p.logs[g[k].term], k + 1)
    } by {
        assert(g[k] == log[k]);
        agree_trans(g, log, p.logs[log[k].term], n, k + 1);
    }
}

/// The whole log after `j` entries of a request took their places.
spec fn overlaid(f: Seq<EntryModel>, l: Seq<EntryModel>, n: int) -> Seq<EntryModel> {
    if agree(f, l, n) {
        f
    } else {
        l.take(n)
    }
}

/// The term at an index is that of the whole log, where it is not compacted away.
proof fn terms_fit(s: RaftModel, f: Seq<EntryModel>, n: int)
    requires
        fits(s, f),
    ensures
        n >= s.base_index ==> s.term_at(n) == term_of(f, n),
        n < s.base_index ==> s.term_at(n) == 0,
{
    if s.base_index < n <= f.len() {
        assert(f[n - 1] == s.log[n - 1 - s.base_index]);
    }
}

/// One entry of a leader's log takes its place.
proof fn splice_one(
    p: Past,
    s: RaftModel,
    f: Seq<EntryModel>,
    l: Seq<EntryModel>,
    x: int,
    y: int,
    n: int,
)
    requires
        p.sound(f, x),
        p.sound(l, y),
        0 <= n < l.len(),
        fits(s, overlaid(f, l, n)),
        n <= overlaid(f, l, n).len(),
        agree(f, overlaid(f, l, n), s.commit_index as int),
        !s.conflicts_committed(l[n]),
    ensures
        fits(s.entry_spliced(l[n]), overlaid(f, l, n + 1)),
        n + 1 <= overlaid(f, l, n + 1).len(),
        agree(f, overlaid(f, l, n + 1), s.commit_index as int),
{
    let e = l[n];
    let i = n + 1;
    let g = overlaid(f, l, n);
    let h = overlaid(f, l, i);
    let t = s.entry_spliced(e);
    assert(e.index == i);
    terms_fit(s, g, i);
    if i <= s.last_index() && s.term_at(i) == e.term {
        assert(i >= s.base_index);
        assert(g[n].term == e.term);
        assert(agree(f, l, n)) by {
            if !agree(f, l, n) {
                assert(g.len() == n);
            }
        }
        assert(g == f);
        logs_match(p, f, l, x, y, i);
    } else {
        assert(!agree(f, l, i)) by {
            if agree(f, l, i) {
                assert(agree(f, l, n));
                assert(f[n] == l[n]);
            }
        }
        assert(h == l.take(i));
        if i <= s.last_index() {
            assert(i > s.commit_index);
            assert(g == f) by {
                if !agree(f, l, n) {
                    assert(g.len() == n);
                }
            }
        } else {
            assert(g.len() == n);
        }
        assert(agree(g, l, n)) by {
            if agree(f, l, n) {
            } else {
                assert forall|k: int| #![trigger g[k]] 0 <= k < n implies g[k] == l[k] by {}
                assert forall|k: int| #![trigger l[k]] 0 <= k < n implies g[k] == l[k] by {
                    assert(g[k] == l[k]);
                }
            }
        }
        assert(t.last_index() == i);
        assert forall|k: int|
            #![trigger h[k]]
            t.base_index <= k < h.len() implies h[k] == t.log[k - t.base_index] by {
            if k < n {
                assert(g[k] == l[k]);
                assert(g[k] == s.log[k - s.base_index]);
            }
        }
        if s.base_index > 0 {
            assert(g[s.base_index - 1] == l[s.base_index - 1]);
            assert(h[s.base_index - 1] == l[s.base_index - 1]);
        }
        assert(s.commit_index <= n);
        assert forall|k: int| #![trigger f[k]] 0 <= k < s.commit_index implies f[k] == h[k] by {
            assert(f[k] == g[k]);
            assert(g[k] == l[k]);
        }
        assert forall|k: int| #![trigger h[k]] 0 <= k < s.commit_index implies f[k] == h[k] by {
            assert(f[k] == g[k]);
            assert(g[k] == l[k]);
        }
    }
}

/// Entries of a leader's log take their places one after the other; says how many did.
proof fn splice_all(
    p: Past,
    s: RaftModel,
    f: Seq<EntryModel>,
    l: Seq<EntryModel>,
    x: int,
    y: int,
    n: int,
    entries: Seq<EntryModel>,
) -> (j: int)
    requires
        p.sound(f, x),
        p.sound(l, y),
        0 <= n,
        n + entries.len() <= l.len(),
        forall|k: int| 0 <= k < entries.len() ==> (#[trigger] entries[k]) == l[n + k],
        fits(s, f),
        agree(f, l, n),
    ensures
        0 <= j <= entries.len(),
        s.spliced(entries).1 ==> j == entries.len(),
        fits(s.spliced(entries).0, overlaid(f, l, n + j)),
        n + j <= overlaid(f, l, n + j).len(),
        agree(f, overlaid(f, l, n + j), s.commit_index as int),
        s.spliced(entries).0 == (RaftModel {
            log: s.spliced(entries).0.log,
            dirty: s.spliced(entries).0.dirty,
            ..s
        }),
    decreases entries.len(),
{
    if entries.len() == 0 {
        assert(overlaid(f, l, n) == f);
        0
    } else {
        let before = entries.drop_last();
        assert forall|k: int| 0 <= k < before.len() implies (#[trigger] before[k]) == l[n + k] by {
            assert(before[k] == entries[k]);
        }
        let j = splice_all(p, s, f, l, x, y, n, before);
        let (t, complete) = s.spliced(before);
        let e = entries.last();
        assert(e == entries[entries.len() - 1]);
        if !complete || t.conflicts_committed(e) {
            j
        } else {
            splice_one(p, t, f, l, x, y, n + j);
            j + 1
        }
    }
}

/// What is settled for a follower is in the log of its leader.
proof fn leader_has_settled(w: World, p: Past, log: Seq<EntryModel>, k: int, u: u64)
    requires
        inv(w, p),
        p.logs.dom().contains(u),
        settled(w.members.dom(), p, log, k, u as int),
        0 <= k <= log.len(),
    ensures
        agree(p.logs[u], log, k),
{
    let ids = w.members.dom();
    if k != 0 {
        let (t, i) = choose|t: u64, i: int|
            #[trigger] chosen(ids, p, t, i) && t <= u && k <= i && agree(log, p.logs[t], k);
        if t < u {
            chosen_is_open(w, p, t, i);
            of_pair(w, p, t, u, i);
            agree_trans(p.logs[u], p.logs[t], log, i, k);
        }
    }
}

proof fn chosen_is_open(w: World, p: Past, t: u64, i: int)
    requires
        inv(w, p),
        chosen(w.members.dom(), p, t, i),
    ensures
        !blocked(w, p, t, i),
{
    of_pair(w, p, t, t, i);
    let ids = w.members.dom();
    larger_majority(ids, ackers(ids, p, t, i), openers(w, p, t, i));
}

proof fn broadcast_step(w: World, p: Past, m: Seq<char>)
    requires
        inv(w, p),
        w.members.dom().contains(m),
        w.members[m].role == Role::Leader,
    ensures
        inv(moved(w, m, w.members[m].broadcasting()), p),
{
    replicate_all_step(w, p, m, w.members[m].peers);
}

proof fn vote_counted_step(w: World, p: Past, m: Seq<char>) -> (q: Past)
    requires
        inv(w, p),
        w.members.dom().contains(m),
        w.members[m].last_index() < u64::MAX,
    ensures
        extends(p, q),
        inv(moved(w, m, w.members[m].vote_counted()), q),
{
    let s = w.members[m];
    if s.role == Role::Candidate && s.votes.len() >= s.quorum() {
        let q = lead_step(w, p, m);
        let t = leader_of(s);
        moved_twice(w, m, t, t.broadcasting());
        broadcast_step(moved(w, m, t), q, m);
        q
    } else {
        quiet_step(w, p, m, s);
        p
    }
}

proof fn campaigning_step(w: World, p: Past, m: Seq<char>) -> (q: Past)
    requires
        inv(w, p),
        w.members.dom().contains(m),
        w.members[m].current_term < u64::MAX,
        w.members[m].last_index() < u64::MAX,
    ensures
        extends(p, q),
        inv(moved(w, m, w.members[m].campaigning()), q),
{
    let ids = w.members.dom();
    let s = w.members[m];
    let q = campaign_step(w, p, m);
    let t = campaigner(s);
    let v = moved(w, m, t);
    let msg = t.vote_request(t.current_term, false);
    moved_twice(w, m, t, t);
    of_member(w, p, m);
    of_member(v, q, m);
    full_is_small(q, q.full[m], t.current_term as int);
    terms_fit(t, q.full[m], t.last_index());
    assert(t.last_term() == term_of(q.full[m], q.full[m].len() as int)) by {
        if t.log.len() > 0 {
            let last = q.full[m].len() - 1;
            assert(q.full[m][last] == t.log[last - t.base_index]);
        }
    }
    assert forall|x: Seq<char>| #[trigger] backed(ids, q, Packet { from: m, to: x, msg }) by {}
    send_all_step(v, q, m, s.peers, msg);
    let asked = t.sending_all(s.peers, msg);
    moved_twice(w, m, t, asked);
    let r = vote_counted_step(moved(w, m, asked), q, m);
    extends_trans(p, q, r);
    moved_twice(w, m, asked, asked.vote_counted());
    r
}

proof fn pre_vote_counted_step(w: World, p: Past, m: Seq<char>) -> (q: Past)
    requires
        inv(w, p),
        w.members.dom().contains(m),
        w.members[m].has_headroom(),
    ensures
        extends(p, q),
        inv(moved(w, m, w.members[m].pre_vote_counted()), q),
{
    let s = w.members[m];
    if s.role == Role::PreCandidate && s.votes.len() >= s.quorum() {
        campaigning_step(w, p, m)
    } else {
        quiet_step(w, p, m, s);
        p
    }
}

proof fn ticked_step(w: World, p: Past, m: Seq<char>) -> (q: Past)
    requires
        inv(w, p),
        w.members.dom().contains(m),
        raft_laws::possible(w.members[m], Event::Tick),
    ensures
        extends(p, q),
        inv(moved(w, m, w.members[m].ticked()), q),
{
    let ids = w.members.dom();
    let s = w.members[m];
    if s.role == Role::Leader {
        let beat = (s.heartbeat_elapsed + 1) as u64;
        let rested = RaftModel { heartbeat_elapsed: 0, ..s };
        let sent = if beat >= s.cfg.heartbeat_ticks {
            rested.broadcasting()
        } else {
            RaftModel { heartbeat_elapsed: beat, ..s }
        };
        if beat >= s.cfg.heartbeat_ticks {
            quiet_step(w, p, m, rested);
            moved_twice(w, m, rested, sent);
            broadcast_step(moved(w, m, rested), p, m);
            rested.replicating_frame(s.peers);
        } else {
            quiet_step(w, p, m, sent);
        }
        let v = moved(w, m, sent);
        let elapsed = (s.election_elapsed + 1) as u64;
        let aged = RaftModel { election_elapsed: elapsed, ..sent };
        let t = s.ticked();
        moved_twice(w, m, sent, t);
        if elapsed >= s.randomized_election_timeout && s.acked_since_check.len() + 1 < s.quorum() {
            let checked = RaftModel { acked_since_check: Set::empty(), ..aged };
            moved_twice(w, m, sent, checked);
            quiet_step(v, p, m, checked);
            moved_twice(w, m, checked, t);
            follow_step(moved(w, m, checked), p, m, s.current_term, None);
        } else {
            quiet_step(v, p, m, t);
        }
        p
    } else {
        let elapsed = (s.election_elapsed + 1) as u64;
        let aged = RaftModel { election_elapsed: elapsed, ..s };
        if elapsed >= s.randomized_election_timeout {
            let polled = RaftModel {
                role: Role::PreCandidate,
                votes: Set::empty().insert(s.id),
                ..aged.timer_reset()
            };
            let msg = aged.vote_request((s.current_term + 1) as u64, true);
            let asked = polled.sending_all(s.peers, msg);
            quiet_step(w, p, m, polled);
            let v = moved(w, m, polled);
            moved_twice(w, m, polled, asked);
            of_member(w, p, m);
            assert forall|x: Seq<char>| #[trigger]
                backed(ids, p, Packet { from: m, to: x, msg }) by {}
            send_all_step(v, p, m, s.peers, msg);
            let q = pre_vote_counted_step(moved(w, m, asked), p, m);
            moved_twice(w, m, asked, asked.pre_vote_counted());
            q
        } else {
            quiet_step(w, p, m, aged);
            p
        }
    }
}

proof fn vote_answered_step(
    w: World,
    p: Past,
    m: Seq<char>,
    from: Seq<char>,
    req: VoteModel,
) -> (q: Past)
    requires
        inv(w, p),
        w.members.dom().contains(m),
        backed(
            w.members.dom(),
            p,
            (Packet { from, to: m, msg: MessageModel::RequestVote(req) }),
        ),
    ensures
        extends(p, q),
        inv(moved(w, m, w.members[m].vote_answered(from, req)), q),
{
    let ids = w.members.dom();
    let a = w.members[m];
    let s = if !req.pre_vote && req.term > a.current_term {
        a.following(req.term, None)
    } else {
        a
    };
    if !req.pre_vote && req.term > a.current_term {
        follow_step(w, p, m, req.term, None);
    } else {
        quiet_step(w, p, m, a);
    }
    let v = moved(w, m, s);
    moved_twice(w, m, s, s);
    let granted = if req.term < s.current_term {
        false
    } else if req.pre_vote {
        s.log_not_behind(req) && (s.leader_id is None || s.election_elapsed
            >= s.cfg.election_min_ticks)
    } else {
        s.log_not_behind(req) && req.term == s.current_term && (s.voted_for is None || s.voted_for
            == Some(from))
    };
    let resp = MessageModel::RequestVoteResp(
        RequestVoteResp { term: s.current_term, granted, pre_vote: req.pre_vote },
    );
    if granted && !req.pre_vote {
        let t = (RaftModel { voted_for: Some(from), dirty: true, ..s }).timer_reset();
        let q = grant_step(v, p, m, from, req);
        moved_twice(w, m, s, t);
        moved_twice(w, m, t, t.sending(from, resp));
        send_step(moved(w, m, t), q, m, from, resp);
        q
    } else {
        moved_twice(w, m, s, s.sending(from, resp));
        send_step(v, p, m, from, resp);
        p
    }
}

proof fn vote_received_step(
    w: World,
    p: Past,
    m: Seq<char>,
    from: Seq<char>,
    resp: RequestVoteResp,
) -> (q: Past)
    requires
        inv(w, p),
        w.members.dom().contains(m),
        w.members[m].has_headroom(),
        backed(
            w.members.dom(),
            p,
            (Packet { from, to: m, msg: MessageModel::RequestVoteResp(resp) }),
        ),
    ensures
        extends(p, q),
        inv(moved(w, m, w.members[m].vote_received(from, resp)), q),
{
    let s = w.members[m];
    let t = RaftModel { votes: s.votes.insert(from), ..s };
    if resp.term > s.current_term {
        follow_step(w, p, m, resp.term, None);
        p
    } else if resp.granted && resp.pre_vote && s.role == Role::PreCandidate {
        quiet_step(w, p, m, t);
        moved_twice(w, m, t, t.pre_vote_counted());
        pre_vote_counted_step(moved(w, m, t), p, m)
    } else if resp.granted && !resp.pre_vote && s.role == Role::Candidate && resp.term
        == s.current_term {
        count_step(w, p, m, from);
        moved_twice(w, m, t, t.vote_counted());
        vote_counted_step(moved(w, m, t), p, m)
    } else {
        quiet_step(w, p, m, s);
        p
    }
}

proof fn append_answered_step(
    w: World,
    p: Past,
    m: Seq<char>,
    from: Seq<char>,
    req: AppendModel,
) -> (q: Past)
    requires
        inv(w, p),
        from != m,
        w.members.dom().contains(m),
        backed(
            w.members.dom(),
            p,
            (Packet { from, to: m, msg: MessageModel::AppendEntries(req) }),
        ),
    ensures
        extends(p, q),
        inv(moved(w, m, w.members[m].append_answered(from, req)), q),
{
    let ids = w.members.dom();
    let a = w.members[m];
    if req.term < a.current_term {
        send_step(w, p, m, from, a.append_answer(false, 0));
        p
    } else {
        let u = req.term;
        let l = p.logs[u];
        let s = a.following(u, Some(from));
        follow_step(w, p, m, u, Some(from));
        let v = moved(w, m, s);
        moved_twice(w, m, s, s);
        of_member(v, p, m);
        of_term(w, p, u);
        let f = p.full[m];
        let prev = req.prev_log_index as int;
        full_is_small(p, f, u as int);
        if !raft_model::contiguous(req) || prev > s.last_index() {
            let msg = s.append_answer(false, s.last_index() as u64);
            moved_twice(w, m, s, s.sending(from, msg));
            send_step(v, p, m, from, msg);
            p
        } else if prev > 0 && s.term_at(prev) != req.prev_log_term {
            let t = s.truncated_from(prev);
            let msg = s.append_answer(false, (prev - 1) as u64);
            let q = truncate_step(v, p, m, from, req);
            moved_twice(w, m, s, t);
            moved_twice(w, m, t, t.sending(from, msg));
            send_step(moved(w, m, t), q, m, from, msg);
            q
        } else {
            let t = splice_answer(s, from, req);
            moved_twice(w, m, s, t);
            splice_step(v, p, m, from, req)
        }
    }
}

/// A follower after it took the entries of a request in and answered.
spec fn splice_answer(s: RaftModel, from: Seq<char>, req: AppendModel) -> RaftModel {
    let (t, complete) = s.spliced(req.entries);
    if complete {
        let commit = raft_model::smaller(req.leader_commit, RaftModel::last_new(req));
        let u = if commit > t.commit_index {
            RaftModel { commit_index: commit, dirty: true, ..t }
        } else {
            t
        };
        u.sending(from, u.append_answer(true, RaftModel::last_new(req)))
    } else {
        t.sending(from, t.append_answer(false, t.last_index() as u64))
    }
}

/// What a follower's log is once it took the entries of a request in: the first `n` entries are
/// its leader's.
proof fn splice_facts(
    w: World,
    p: Past,
    m: Seq<char>,
    from: Seq<char>,
    req: AppendModel,
) -> (n: int)
    requires
        inv(w, p),
        w.members.dom().contains(m),
        w.members[m].role == Role::Follower,
        w.members[m].current_term == req.term,
        backed(
            w.members.dom(),
            p,
            (Packet { from, to: m, msg: MessageModel::AppendEntries(req) }),
        ),
        req.prev_log_index <= w.members[m].last_index(),
        req.prev_log_index == 0 || w.members[m].term_at(req.prev_log_index as int)
            == req.prev_log_term,
    ensures
        ({
            let s = w.members[m];
            let l = p.logs[req.term];
            let (t, complete) = s.spliced(req.entries);
            let g = overlaid(p.full[m], l, n);
            let commit = raft_model::smaller(req.leader_commit, RaftModel::last_new(req));
            &&& 0 <= n
            &&& t == (RaftModel { log: t.log, dirty: t.dirty, ..s })
            &&& fits(t, g)
            &&& p.sound(g, req.term as int)
            &&& loses_only(p, m, req.term, p.full[m], g)
            &&& settled(w.members.dom(), p, g, s.commit_index as int, req.term as int)
            &&& complete ==> {
                &&& RaftModel::last_new(req) == n
                &&& agree(l, g, n)
                &&& commit <= g.len()
                &&& settled(w.members.dom(), p, g, commit as int, req.term as int)
            }
        }),
{
    let ids = w.members.dom();
    let s = w.members[m];
    let u = req.term;
    let l = p.logs[u];
    let f = p.full[m];
    let prev = req.prev_log_index as int;
    of_member(w, p, m);
    of_term(w, p, u);
    assert(agree(f, l, prev)) by {
        if prev > 0 {
            terms_fit(s, f, prev);
            assert(l[prev - 1].term >= 1);
            logs_match(p, f, l, u as int, u as int, prev);
        }
    }
    let j = splice_all(p, s, f, l, u as int, u as int, prev, req.entries);
    let n = prev + j;
    let g = overlaid(f, l, n);
    take_is_sound(p, l, u as int, n);
    assert(p.sound(g, u as int));
    assert(loses_only(p, m, u, f, g)) by {
        if !agree(f, l, n) {
            overwrite_loses_only(p, m, u, f, n);
        }
    }
    settled_extends(ids, p, p, f, g, s.commit_index as int, u as int, u as int);
    if s.spliced(req.entries).1 {
        let last = RaftModel::last_new(req);
        assert(last == n) by {
            if req.entries.len() > 0 {
                assert(req.entries[req.entries.len() - 1] == l[n - 1]);
            }
        }
        assert(agree(l, g, n));
        let commit = raft_model::smaller(req.leader_commit, last);
        settled_less(ids, p, l, req.leader_commit as int, commit as int, u as int);
        settled_extends(ids, p, p, l, g, commit as int, u as int, u as int);
    }
    n
}

/// A follower takes the entries of a request in and answers.
proof fn splice_step(
    w: World,
    p: Past,
    m: Seq<char>,
    from: Seq<char>,
    req: AppendModel,
) -> (q: Past)
    requires
        inv(w, p),
        from != m,
        w.members.dom().contains(m),
        w.members[m].role == Role::Follower,
        w.members[m].current_term == req.term,
        backed(
            w.members.dom(),
            p,
            (Packet { from, to: m, msg: MessageModel::AppendEntries(req) }),
        ),
        req.prev_log_index <= w.members[m].last_index(),
        req.prev_log_index == 0 || w.members[m].term_at(req.prev_log_index as int)
            == req.prev_log_term,
    ensures
        extends(p, q),
        inv(moved(w, m, splice_answer(w.members[m], from, req)), q),
{
    let s = w.members[m];
    let u = req.term;
    let l = p.logs[u];
    let (t, complete) = s.spliced(req.entries);
    let n = splice_facts(w, p, m, from, req);
    let g = overlaid(p.full[m], l, n);
    if complete {
        let last = RaftModel::last_new(req);
        let commit = raft_model::smaller(req.leader_commit, last);
        let x = if commit > t.commit_index {
            RaftModel { commit_index: commit, dirty: true, ..t }
        } else {
            t
        };
        let q = relog_step(w, p, m, x, g, n as nat);
        let msg = x.append_answer(true, last);
        moved_twice(w, m, x, x.sending(from, msg));
        send_step(moved(w, m, x), q, m, from, msg);
        q
    } else {
        let q = relog_step(w, p, m, t, g, 0);
        let msg = t.append_answer(false, t.last_index() as u64);
        moved_twice(w, m, t, t.sending(from, msg));
        send_step(moved(w, m, t), q, m, from, msg);
        q
    }
}

/// A follower drops what does not continue its leader's log.
proof fn truncate_step(
    w: World,
    p: Past,
    m: Seq<char>,
    from: Seq<char>,
    req: AppendModel,
) -> (q: Past)
    requires
        inv(w, p),
        from != m,
        w.members.dom().contains(m),
        w.members[m].role == Role::Follower,
        w.members[m].current_term == req.term,
        backed(
            w.members.dom(),
            p,
            (Packet { from, to: m, msg: MessageModel::AppendEntries(req) }),
        ),
        0 < req.prev_log_index <= w.members[m].last_index(),
        w.members[m].term_at(req.prev_log_index as int) != req.prev_log_term,
    ensures
        extends(p, q),
        inv(moved(w, m, w.members[m].truncated_from(req.prev_log_index as int)), q),
{
    let ids = w.members.dom();
    let s = w.members[m];
    let u = req.term;
    let f = p.full[m];
    let l = p.logs[u];
    let prev = req.prev_log_index as int;
    let t = s.truncated_from(prev);
    of_member(w, p, m);
    if s.may_truncate(prev) && s.base_index < prev {
        let g = f.take(prev - 1);
        terms_fit(s, f, prev);
        take_is_sound(p, f, u as int, prev - 1);
        settled_extends(ids, p, p, f, g, s.commit_index as int, u as int, u as int);
        assert(fits(t, g)) by {
            assert forall|k: int|
                #![trigger g[k]]
                t.base_index <= k < g.len() implies g[k] == t.log[k - t.base_index] by {
                assert(f[k] == s.log[k - s.base_index]);
            }
            if s.base_index > 0 {
                assert(g[s.base_index - 1] == f[s.base_index - 1]);
            }
        }
        assert(loses_only(p, m, u, f, g)) by {
            assert forall|x: u64, i: int|
                #![trigger p.own(x, i)]
                x <= u && i <= p.acked(m, x) && p.own(x, i) && agree(p.logs[x], f, i) implies agree(
                p.logs[x],
                g,
                i,
            ) || (x < u && !agree(p.logs[x], l, i)) by {
                if i <= prev - 1 {
                    agree_trans(p.logs[x], f, g, i, prev - 1);
                } else {
                    assert(p.logs[x][prev - 1] == f[prev - 1]);
                    if agree(p.logs[x], l, i) {
                        assert(p.logs[x][prev - 1] == l[prev - 1]);
                    } else if x == u {
                        assert(agree(l, l, i));
                    }
                }
            }
        }
        relog_step(w, p, m, t, g, 0)
    } else {
        quiet_step(w, p, m, t);
        p
    }
}

proof fn advance_aloud_step(w: World, p: Past, m: Seq<char>)
    requires
        inv(w, p),
        w.members.dom().contains(m),
        w.members[m].role == Role::Leader,
    ensures
        inv(moved(w, m, w.members[m].advancing_aloud()), p),
{
    let s = w.members[m];
    if s.can_advance() {
        let t = s.advancing();
        advance_step(w, p, m);
        moved_twice(w, m, t, t.broadcasting());
        broadcast_step(moved(w, m, t), p, m);
    } else {
        quiet_step(w, p, m, s);
    }
}

proof fn append_acked_step(
    w: World,
    p: Past,
    m: Seq<char>,
    from: Seq<char>,
    resp: AppendEntriesResp,
)
    requires
        inv(w, p),
        w.members.dom().contains(m),
        backed(
            w.members.dom(),
            p,
            (Packet { from, to: m, msg: MessageModel::AppendEntriesResp(resp) }),
        ),
    ensures
        inv(moved(w, m, w.members[m].append_acked(from, resp)), p),
{
    let ids = w.members.dom();
    let a = w.members[m];
    if resp.term > a.current_term {
        follow_step(w, p, m, resp.term, None);
    } else if a.role != Role::Leader || resp.term != a.current_term {
        quiet_step(w, p, m, a);
    } else {
        let s = RaftModel { acked_since_check: a.acked_since_check.insert(from), ..a };
        of_member(w, p, m);
        quiet_step(w, p, m, s);
        moved_twice(w, m, s, s);
        let v = moved(w, m, s);
        let matched = raft_model::value_or(s.match_index, from, 0);
        full_is_small(p, p.full[m], a.current_term as int);
        assert(matched <= p.acked(from, a.current_term)) by {
            if s.match_index.dom().contains(from) {
                assert(a.match_index[from] <= p.acked(from, a.current_term));
            }
        }
        if resp.success {
            let now = raft_model::larger(
                matched,
                raft_model::smaller(resp.match_index, s.last_index() as u64),
            );
            let t = RaftModel {
                match_index: s.match_index.insert(from, now),
                next_index: s.next_index.insert(from, raft_model::saturated(now + 1) as u64),
                ..s
            };
            match_step(v, p, m, from, now, t);
            moved_twice(w, m, s, t);
            moved_twice(w, m, t, t.advancing_aloud());
            advance_aloud_step(moved(w, m, t), p, m);
        } else {
            let next = raft_model::value_or(s.next_index, from, 1);
            let rewound = raft_model::larger(
                raft_model::saturated(resp.match_index + 1) as u64,
                raft_model::saturated(matched + 1) as u64,
            );
            if rewound < next {
                let t = RaftModel { next_index: s.next_index.insert(from, rewound), ..s };
                assert(s.next_index.dom().contains(from));
                assert(a.next_index[from] <= p.logs[a.current_term].len() + 1);
                rewind_step(v, p, m, from, rewound, t);
                moved_twice(w, m, s, t);
                moved_twice(w, m, t, t.replicating(from));
                replicate_step(moved(w, m, t), p, m, from);
            }
        }
    }
}

proof fn install_acked_step(
    w: World,
    p: Past,
    m: Seq<char>,
    from: Seq<char>,
    resp: InstallSnapshotResp,
)
    requires
        inv(w, p),
        w.members.dom().contains(m),
        backed(
            w.members.dom(),
            p,
            (Packet { from, to: m, msg: MessageModel::InstallSnapshotResp(resp) }),
        ),
    ensures
        inv(moved(w, m, w.members[m].install_acked(from, resp)), p),
{
    let ids = w.members.dom();
    let a = w.members[m];
    if resp.term > a.current_term {
        follow_step(w, p, m, resp.term, None);
    } else if a.role != Role::Leader || resp.term != a.current_term {
        quiet_step(w, p, m, a);
    } else {
        let s = RaftModel { acked_since_check: a.acked_since_check.insert(from), ..a };
        of_member(w, p, m);
        quiet_step(w, p, m, s);
        moved_twice(w, m, s, s);
        let v = moved(w, m, s);
        let matched = raft_model::value_or(s.match_index, from, 0);
        assert(matched <= p.acked(from, a.current_term)) by {
            if s.match_index.dom().contains(from) {
                assert(a.match_index[from] <= p.acked(from, a.current_term));
            }
        }
        if resp.success {
            let now = raft_model::larger(
                matched,
                raft_model::smaller(
                    resp.last_included_index,
                    raft_model::value_or(s.snapshot_sent, from, 0),
                ),
            );
            let t = RaftModel {
                match_index: s.match_index.insert(from, now),
                next_index: s.next_index.insert(from, raft_model::saturated(now + 1) as u64),
                ..s
            };
            match_step(v, p, m, from, now, t);
            moved_twice(w, m, s, t);
            moved_twice(w, m, t, t.advancing_aloud());
            advance_aloud_step(moved(w, m, t), p, m);
        }
    }
}

/// A follower installs its leader's snapshot.
proof fn install_step(
    w: World,
    p: Past,
    m: Seq<char>,
    from: Seq<char>,
    req: InstallModel,
) -> (q: Past)
    requires
        inv(w, p),
        from != m,
        w.members.dom().contains(m),
        w.members[m].role == Role::Follower,
        w.members[m].current_term == req.term,
        backed(
            w.members.dom(),
            p,
            (Packet { from, to: m, msg: MessageModel::InstallSnapshot(req) }),
        ),
        req.last_included_index > w.members[m].commit_index,
    ensures
        extends(p, q),
        inv(moved(w, m, w.members[m].installed(req)), q),
        q.acked(m, req.term) >= req.last_included_index,
{
    let ids = w.members.dom();
    let s = w.members[m];
    let u = req.term;
    let f = p.full[m];
    let l = p.logs[u];
    let n = req.last_included_index as int;
    let t = s.installed(req);
    of_member(w, p, m);
    of_term(w, p, u);
    terms_fit(s, f, n);
    take_is_sound(p, l, u as int, n);
    let g = overlaid(f, l, n);
    if s.term_at(n) == req.last_included_term && n <= s.last_index() {
        logs_match(p, f, l, u as int, u as int, n);
        assert(g == f);
        assert forall|k: int|
            #![trigger g[k]]
            t.base_index <= k < g.len() implies g[k] == t.log[k - t.base_index] by {
            assert(f[k] == s.log[k - s.base_index]);
        }
        assert(f[n - 1] == l[n - 1]);
        assert(loses_only(p, m, u, f, g));
    } else {
        assert(!agree(f, l, n)) by {
            if agree(f, l, n) {
                assert(f[n - 1] == l[n - 1]);
            }
        }
        assert(g == l.take(n));
        overwrite_loses_only(p, m, u, f, n);
    }
    assert(fits(t, g));
    assert(agree(l, g, n));
    settled_extends(ids, p, p, l, g, n, u as int, u as int);
    relog_step(w, p, m, t, g, n as nat)
}

/// A follower installs its leader's snapshot and answers.
proof fn install_reply_step(
    w: World,
    p: Past,
    m: Seq<char>,
    from: Seq<char>,
    req: InstallModel,
) -> (q: Past)
    requires
        inv(w, p),
        from != m,
        w.members.dom().contains(m),
        w.members[m].role == Role::Follower,
        w.members[m].current_term == req.term,
        backed(
            w.members.dom(),
            p,
            (Packet { from, to: m, msg: MessageModel::InstallSnapshot(req) }),
        ),
        req.last_included_index > w.members[m].commit_index,
    ensures
        extends(p, q),
        ({
            let t = w.members[m].installed(req);
            inv(moved(w, m, t.sending(from, t.install_answer(true, t.base_index))), q)
        }),
{
    let t = w.members[m].installed(req);
    let q = install_step(w, p, m, from, req);
    let msg = t.install_answer(true, t.base_index);
    moved_twice(w, m, t, t.sending(from, msg));
    send_step(moved(w, m, t), q, m, from, msg);
    q
}

/// A follower confirms what it has committed.
proof fn confirm_step(w: World, p: Past, m: Seq<char>, from: Seq<char>) -> (q: Past)
    requires
        inv(w, p),
        w.members.dom().contains(m),
        w.members[m].role == Role::Follower,
        p.logs.dom().contains(w.members[m].current_term),
        p.leads[w.members[m].current_term] != m,
    ensures
        extends(p, q),
        ({
            let s = w.members[m];
            let msg = s.install_answer(true, raft_model::larger(s.commit_index, s.base_index));
            inv(moved(w, m, s.sending(from, msg)), q)
        }),
{
    let ids = w.members.dom();
    let s = w.members[m];
    let f = p.full[m];
    of_member(w, p, m);
    leader_has_settled(w, p, f, s.commit_index as int, s.current_term);
    assert(loses_only(p, m, s.current_term, f, f));
    let q = relog_step(w, p, m, s, f, s.commit_index as nat);
    let msg = s.install_answer(true, raft_model::larger(s.commit_index, s.base_index));
    moved_twice(w, m, s, s.sending(from, msg));
    send_step(moved(w, m, s), q, m, from, msg);
    q
}

proof fn install_answered_step(
    w: World,
    p: Past,
    m: Seq<char>,
    from: Seq<char>,
    req: InstallModel,
) -> (q: Past)
    requires
        inv(w, p),
        from != m,
        w.members.dom().contains(m),
        backed(
            w.members.dom(),
            p,
            (Packet { from, to: m, msg: MessageModel::InstallSnapshot(req) }),
        ),
    ensures
        extends(p, q),
        inv(moved(w, m, w.members[m].install_answered(from, req)), q),
{
    let ids = w.members.dom();
    let a = w.members[m];
    if req.term < a.current_term {
        send_step(w, p, m, from, a.install_answer(false, 0));
        p
    } else {
        let u = req.term;
        let s = a.following(u, Some(from));
        follow_step(w, p, m, u, Some(from));
        let v = moved(w, m, s);
        moved_twice(w, m, s, s);
        if req.last_included_index <= s.commit_index {
            let msg = s.install_answer(
                true,
                raft_model::larger(s.commit_index, s.base_index),
            );
            moved_twice(w, m, s, s.sending(from, msg));
            confirm_step(v, p, m, from)
        } else {
            let t = s.installed(req);
            moved_twice(w, m, s, t.sending(from, t.install_answer(true, t.base_index)));
            install_reply_step(v, p, m, from, req)
        }
    }
}

proof fn proposed_step(w: World, p: Past, m: Seq<char>, command: CommandModel) -> (q: Past)
    requires
        inv(w, p),
        w.members.dom().contains(m),
        raft_laws::possible(w.members[m], (Event::Propose { command })),
    ensures
        extends(p, q),
        inv(moved(w, m, w.members[m].proposed(command)), q),
{
    let s = w.members[m];
    if s.role == Role::Leader {
        let a = s.appending(Some(command));
        let b = a.advancing();
        let q = append_step(w, p, m, Some(command));
        moved_twice(w, m, a, b);
        advance_step(moved(w, m, a), q, m);
        moved_twice(w, m, b, b.broadcasting());
        broadcast_step(moved(w, m, b), q, m);
        q
    } else {
        quiet_step(w, p, m, s);
        p
    }
}

proof fn compacted_step(w: World, p: Past, m: Seq<char>, index: u64, snapshot: Seq<u8>)
    requires
        inv(w, p),
        w.members.dom().contains(m),
    ensures
        inv(moved(w, m, w.members[m].compacted(index, snapshot)), p),
{
    let ids = w.members.dom();
    let s = w.members[m];
    let t = s.compacted(index, snapshot);
    of_member(w, p, m);
    if s.base_index < index <= s.commit_index {
        let f = p.full[m];
        terms_fit(s, f, index as int);
        assert(fits(t, f)) by {
            assert forall|k: int|
                #![trigger f[k]]
                t.base_index <= k < f.len() implies f[k] == t.log[k - t.base_index] by {
                assert(f[k] == s.log[k - s.base_index]);
            }
        }
        same_past(w, p, m, t);
    } else {
        quiet_step(w, p, m, s);
    }
}

/// Whatever a member does keeps the group's invariant.
proof fn act_step(w: World, p: Past, m: Seq<char>, e: Event) -> (q: Past)
    requires
        inv(w, p),
        w.members.dom().contains(m),
        raft_laws::possible(w.members[m], e),
        e matches Event::Step { from, msg } ==> w.sent.contains(Packet { from, to: m, msg }),
    ensures
        extends(p, q),
        inv(moved(w, m, raft_laws::after(w.members[m], e)), q),
{
    reveal(inv);
    let s = w.members[m];
    match e {
        Event::Tick => ticked_step(w, p, m),
        Event::Step { from, msg } => {
            assert(backed(w.members.dom(), p, Packet { from, to: m, msg }));
            if !s.accepts(from, msg) {
                quiet_step(w, p, m, s);
                p
            } else {
                of_member(w, p, m);
                group_size(w.members.dom(), m, s);
                match msg {
                    MessageModel::RequestVote(req) => vote_answered_step(w, p, m, from, req),
                    MessageModel::RequestVoteResp(resp) => vote_received_step(
                        w,
                        p,
                        m,
                        from,
                        resp,
                    ),
                    MessageModel::AppendEntries(req) => append_answered_step(w, p, m, from, req),
                    MessageModel::AppendEntriesResp(resp) => {
                        append_acked_step(w, p, m, from, resp);
                        p
                    },
                    MessageModel::InstallSnapshot(req) => install_answered_step(
                        w,
                        p,
                        m,
                        from,
                        req,
                    ),
                    MessageModel::InstallSnapshotResp(resp) => {
                        install_acked_step(w, p, m, from, resp);
                        p
                    },
                }
            }
        },
        Event::Propose { command } => proposed_step(w, p, m, command),
        Event::Compact { index, snapshot } => {
            compacted_step(w, p, m, index, snapshot);
            p
        },
        Event::Ready => {
            quiet_step(w, p, m, s.drained());
            p
        },
    }
}

proof fn extends_trans(p: Past, q: Past, r: Past)
    requires
        extends(p, q),
        extends(q, r),
    ensures
        extends(p, r),
{
    assert forall|t: u64| #[trigger] p.logs.dom().contains(t) implies {
        &&& r.logs.dom().contains(t)
        &&& agree(p.logs[t], r.logs[t], p.logs[t].len() as int)
        &&& r.leads[t] == p.leads[t]
    } by {
        assert(q.logs.dom().contains(t));
        agree_trans(
            p.logs[t],
            q.logs[t],
            r.logs[t],
            p.logs[t].len() as int,
            q.logs[t].len() as int,
        );
    }
    assert forall|k: (Seq<char>, u64)| #[trigger] p.votes.dom().contains(k) implies r.votes.dom()
        .contains(k) && r.votes[k] == p.votes[k] by {
        assert(q.votes.dom().contains(k));
    }
    assert forall|k: (Seq<char>, u64)| #[trigger] p.cands.dom().contains(k) implies r.cands.dom()
        .contains(k) && r.cands[k] == p.cands[k] by {
        assert(q.cands.dom().contains(k));
    }
    assert forall|m: Seq<char>, t: u64| p.acked(m, t) <= #[trigger] r.acked(m, t) by {
        assert(p.acked(m, t) <= q.acked(m, t));
    }
}

/// More messages are on their way.
proof fn sent_step(w: World, p: Past, more: Set<Packet>)
    requires
        inv(w, p),
        forall|pkt: Packet| #[trigger] more.contains(pkt) ==> backed(w.members.dom(), p, pkt),
    ensures
        inv((World { sent: w.sent.union(more), ..w }), p),
{
    reveal(inv);
    let v = World { sent: w.sent.union(more), ..w };
    assert forall|t: u64, i: int| #[trigger] blocked(v, p, t, i) == blocked(w, p, t, i) by {
        assert(openers(v, p, t, i) =~= openers(w, p, t, i));
    }
    assert forall|m: Seq<char>, t: u64| #[trigger] ack_inv(v, p, m, t) by {
        assert(ack_inv(w, p, m, t));
    }
    assert forall|m: Seq<char>, u: u64| #[trigger] p.votes.dom().contains((m, u)) implies vote_inv(
        v,
        p,
        m,
        u,
    ) by {
        assert(vote_inv(w, p, m, u));
    }
    assert forall|t: u64, u: u64, i: int| #[trigger] pair_inv(v, p, t, u, i) by {
        assert(pair_inv(w, p, t, u, i));
    }
}

/// Whether a command is settled at an index for good.
spec fn fixed(ids: Set<Seq<char>>, p: Past, pair: (u64, CommandModel)) -> bool {
    exists|t: u64, k: int|
        #[trigger] chosen(ids, p, t, k) && 0 < pair.0 <= k && p.logs[t][pair.0 - 1].command
            == Some(pair.1)
}

proof fn fixed_extends(ids: Set<Seq<char>>, p: Past, q: Past, pair: (u64, CommandModel))
    requires
        ids.finite(),
        extends(p, q),
        fixed(ids, p, pair),
    ensures
        fixed(ids, q, pair),
{
    let (t, k) = choose|t: u64, k: int|
        #[trigger] chosen(ids, p, t, k) && 0 < pair.0 <= k && p.logs[t][pair.0 - 1].command
            == Some(pair.1);
    chosen_extends(ids, p, q, t, k);
    assert(p.logs[t][pair.0 - 1] == q.logs[t][pair.0 - 1]);
}

proof fn fixed_once(w: World, p: Past, i: u64, a: CommandModel, b: CommandModel)
    requires
        inv(w, p),
        fixed(w.members.dom(), p, (i, a)),
        fixed(w.members.dom(), p, (i, b)),
    ensures
        a == b,
{
    let ids = w.members.dom();
    let (t, k) = choose|t: u64, k: int|
        #[trigger] chosen(ids, p, t, k) && 0 < i <= k && p.logs[t][i - 1].command == Some(a);
    let (u, n) = choose|u: u64, n: int|
        #[trigger] chosen(ids, p, u, n) && 0 < i <= n && p.logs[u][i - 1].command == Some(b);
    if t < u {
        chosen_is_open(w, p, t, k);
        of_pair(w, p, t, u, k);
        assert(p.logs[t][i - 1] == p.logs[u][i - 1]);
    } else if u < t {
        chosen_is_open(w, p, u, n);
        of_pair(w, p, u, t, n);
        assert(p.logs[t][i - 1] == p.logs[u][i - 1]);
    }
}

/// Something a leader wrote: who, in which term, at which index, and what.
struct Written {
    id: Seq<char>,
    term: u64,
    index: u64,
    command: CommandModel,
}

/// Whether the past bears out what a leader wrote.
spec fn wrote(p: Past, x: Written) -> bool {
    &&& p.logs.dom().contains(x.term)
    &&& p.leads.dom().contains(x.term)
    &&& p.leads[x.term] == x.id
    &&& 0 < x.index <= p.logs[x.term].len()
    &&& p.logs[x.term][x.index - 1].command == Some(x.command)
}

/// What is known for good.
struct Known {
    /// The commands settled so far, each with its index.
    fixed: Set<(u64, CommandModel)>,
    /// What leaders wrote and saved.
    written: Set<Written>,
}

/// Whether the past bears out what is known.
spec fn bears_out(ids: Set<Seq<char>>, p: Past, known: Known) -> bool {
    &&& forall|pair: (u64, CommandModel)| #[trigger]
        known.fixed.contains(pair) ==> fixed(ids, p, pair)
    &&& forall|x: Written| #[trigger] known.written.contains(x) ==> wrote(p, x)
}

/// Whether the invariant holds of a world, and its past bears out what is known.
spec fn explains(w: World, p: Past, known: Known) -> bool {
    inv(w, p) && bears_out(w.members.dom(), p, known)
}

/// Whether some past explains a world.
spec fn sane(w: World, known: Known) -> bool {
    exists|p: Past| explains(w, p, known)
}

/// The world in which the members of `fresh` are as they are now, and the others as they last
/// were when they were drained.
spec fn seen(g: GroupModel, fresh: Set<Seq<char>>) -> World {
    World {
        members: Map::new(
            |id: Seq<char>| g.current.dom().contains(id),
            |id: Seq<char>|
                if fresh.contains(id) {
                    g.current[id]
                } else {
                    g.saved[id]
                },
        ),
        sent: g.sent,
    }
}

/// Whether a group is sane, whichever members lose what they have not saved yet.
spec fn robust(g: GroupModel, known: Known) -> bool {
    &&& g.saved.dom() == g.current.dom()
    &&& forall|fresh: Set<Seq<char>>| #[trigger] sane(seen(g, fresh), known)
}

/// The commands a member hands out when it is drained.
spec fn handed_by(s: RaftModel) -> Set<(u64, CommandModel)> {
    s.pending().committed.to_set()
}

proof fn commands_are_entries(s: RaftModel, lo: int, hi: int, pair: (u64, CommandModel))
    requires
        s.commands_between(lo, hi).contains(pair),
        0 <= lo,
        hi <= u64::MAX,
    ensures
        lo < pair.0 <= hi,
        s.base_index < pair.0 <= s.last_index(),
        s.log[pair.0 - s.base_index - 1].command == Some(pair.1),
    decreases hi - lo,
{
    let here = s.commands_between(lo, hi);
    let before = s.commands_between(lo, hi - 1);
    let k = choose|k: int| 0 <= k < here.len() && here[k] == pair;
    if k < before.len() {
        assert(before[k] == pair);
        commands_are_entries(s, lo, hi - 1, pair);
    }
}

/// What a member hands out is settled.
proof fn handed_is_fixed(w: World, p: Past, m: Seq<char>, pair: (u64, CommandModel))
    requires
        inv(w, p),
        w.members.dom().contains(m),
        handed_by(w.members[m]).contains(pair),
    ensures
        fixed(w.members.dom(), p, pair),
{
    let ids = w.members.dom();
    let s = w.members[m];
    let f = p.full[m];
    of_member(w, p, m);
    assert(s.pending().committed.contains(pair));
    commands_are_entries(s, s.last_applied as int, s.commit_index as int, pair);
    let i = pair.0 as int;
    assert(f[i - 1] == s.log[i - 1 - s.base_index]);
    let k = s.commit_index as int;
    let (t, n) = choose|t: u64, n: int|
        #[trigger] chosen(ids, p, t, n) && t <= s.current_term && k <= n && agree(
            f,
            p.logs[t],
            k,
        );
    assert(f[i - 1] == p.logs[t][i - 1]);
}

proof fn still_borne_out(ids: Set<Seq<char>>, p: Past, q: Past, known: Known)
    requires
        ids.finite(),
        extends(p, q),
        p.leads.dom() == p.logs.dom(),
        q.leads.dom() == q.logs.dom(),
        bears_out(ids, p, known),
    ensures
        bears_out(ids, q, known),
{
    assert forall|pair: (u64, CommandModel)| #[trigger] known.fixed.contains(pair) implies fixed(
        ids,
        q,
        pair,
    ) by {
        fixed_extends(ids, p, q, pair);
    }
    assert forall|x: Written| #[trigger] known.written.contains(x) implies wrote(q, x) by {
        assert(wrote(p, x));
        assert(p.logs[x.term][x.index - 1] == q.logs[x.term][x.index - 1]);
    }
}

/// What the invariant says of the group and its terms as a whole.
proof fn of_group(w: World, p: Past)
    requires
        inv(w, p),
    ensures
        w.members.dom().finite(),
        p.leads.dom() == p.logs.dom(),
{
    reveal(inv);
}

proof fn act_keeps(g: GroupModel, known: Known, id: Seq<char>, event: Event)
    requires
        robust(g, known),
        g.can(GroupEvent::Act { id, event }),
    ensures
        robust(g.next(GroupEvent::Act { id, event }), known),
{
    let h = g.next(GroupEvent::Act { id, event });
    assert(h.current.dom() =~= g.current.dom());
    assert forall|fresh: Set<Seq<char>>| #[trigger] sane(seen(h, fresh), known) by {
        let w = seen(g, fresh);
        assert(sane(w, known));
        let p = choose|p: Past| explains(w, p, known);
        if fresh.contains(id) {
            let s = raft_laws::after(g.current[id], event);
            let q = act_step(w, p, id, event);
            let v = moved(w, id, s);
            assert(v.members =~= seen(h, fresh).members);
            assert(v.members.dom() =~= w.members.dom());
            of_group(w, p);
            of_group(v, q);
            still_borne_out(w.members.dom(), p, q, known);
            assert(explains(seen(h, fresh), q, known));
        } else {
            assert(seen(h, fresh).members =~= w.members);
            assert(explains(seen(h, fresh), p, known));
        }
    }
}

proof fn crash_keeps(g: GroupModel, known: Known, id: Seq<char>, seed: u64)
    requires
        robust(g, known),
        g.can(GroupEvent::Crash { id, seed }),
    ensures
        robust(g.next(GroupEvent::Crash { id, seed }), known),
{
    let h = g.next(GroupEvent::Crash { id, seed });
    assert(h.current.dom() =~= g.current.dom());
    assert forall|fresh: Set<Seq<char>>| #[trigger] sane(seen(h, fresh), known) by {
        if fresh.contains(id) {
            let w = seen(g, fresh.remove(id));
            assert(sane(w, known));
            let p = choose|p: Past| explains(w, p, known);
            let s = h.current[id];
            quiet_step(w, p, id, s);
            assert(moved(w, id, s).members =~= seen(h, fresh).members);
            assert(moved(w, id, s).members.dom() =~= w.members.dom());
            assert(explains(seen(h, fresh), p, known));
        } else {
            let w = seen(g, fresh);
            assert(sane(w, known));
            assert(seen(h, fresh).members =~= w.members);
        }
    }
}

/// What is known once a member is drained.
spec fn known_after(known: Known, s: RaftModel) -> Known {
    Known { fixed: known.fixed.union(handed_by(s)), ..known }
}

proof fn drain_keeps(g: GroupModel, known: Known, id: Seq<char>)
    requires
        robust(g, known),
        g.can(GroupEvent::Drain { id }),
    ensures
        robust(g.next(GroupEvent::Drain { id }), known_after(known, g.current[id])),
{
    let h = g.next(GroupEvent::Drain { id });
    let s = g.current[id];
    let all = known_after(known, s);
    assert(h.current.dom() =~= g.current.dom());
    assert(h.saved.dom() =~= h.current.dom());
    assert forall|fresh: Set<Seq<char>>| #[trigger] sane(seen(h, fresh), all) by {
        let w = seen(g, fresh.insert(id));
        assert(sane(w, known));
        let p = choose|p: Past| explains(w, p, known);
        let ids = w.members.dom();
        assert(ids.contains(id));
        assert(w.members[id] == s);
        of_member(w, p, id);
        let more = raft_group::outbox(s);
        assert forall|pkt: Packet| #[trigger] more.contains(pkt) implies backed(ids, p, pkt) by {
            let k = choose|k: int|
                0 <= k < s.out.len() && (#[trigger] s.out[k]).to == pkt.to && s.out[k].msg
                    == pkt.msg;
            assert(pkt == Packet { from: s.id, to: s.out[k].to, msg: s.out[k].msg });
        }
        sent_step(w, p, more);
        let v = World { sent: w.sent.union(more), ..w };
        let d = s.drained();
        quiet_step(v, p, id, d);
        assert(moved(v, id, d).members =~= seen(h, fresh).members);
        assert(moved(v, id, d).members.dom() =~= ids);
        assert forall|pair: (u64, CommandModel)| #[trigger] all.fixed.contains(pair) implies fixed(
            ids,
            p,
            pair,
        ) by {
            if handed_by(s).contains(pair) {
                handed_is_fixed(w, p, id, pair);
            }
        }
        assert(bears_out(ids, p, all));
        assert(explains(seen(h, fresh), p, all));
    }
}

/// Nothing known yet.
spec fn nothing_known() -> Known {
    Known { fixed: Set::empty(), written: Set::empty() }
}

proof fn initial_is_robust(g: GroupModel)
    requires
        g.initial(),
    ensures
        robust(g, nothing_known()),
{
    reveal(inv);
    let ids = g.ids();
    let p = Past {
        full: Map::new(|id: Seq<char>| ids.contains(id), |id: Seq<char>| Seq::empty()),
        logs: Map::empty(),
        leads: Map::empty(),
        votes: Map::empty(),
        cands: Map::empty(),
        acks: Map::empty(),
    };
    assert forall|fresh: Set<Seq<char>>| #[trigger] sane(seen(g, fresh), nothing_known()) by {
        let w = seen(g, fresh);
        assert(w.members =~= g.current);
        assert forall|id: Seq<char>| #[trigger] w.members.dom().contains(id) implies member_inv(
            ids,
            p,
            id,
            w.members[id],
        ) by {
            let s = g.current[id];
            assert(s.durable().log == s.log);
            assert(raft_group::configured(ids, id, s));
            assert(s.role == Role::Follower && s.out.len() == 0);
            assert(fits(s, p.full[id]));
        }
        assert(inv(w, p));
        assert(explains(w, p, nothing_known()));
    }
}

/// The commands handed out in the course of a sequence of events, each with its index.
pub open spec fn handed_out(g: GroupModel, events: Seq<GroupEvent>) -> Set<(u64, CommandModel)>
    decreases events.len(),
{
    if events.len() == 0 {
        Set::empty()
    } else {
        let before = handed_out(g, events.drop_last());
        match events.last() {
            GroupEvent::Drain { id } => before.union(
                g.after_all(events.drop_last()).current[id].pending().committed.to_set(),
            ),
            _ => before,
        }
    }
}

/// What is known after a sequence of events.
spec fn known_through(g: GroupModel, known: Known, events: Seq<GroupEvent>) -> Known {
    Known { fixed: known.fixed.union(handed_out(g, events)), ..known }
}

/// A robust group stays robust, and remembers.
proof fn runs_keep(g: GroupModel, known: Known, events: Seq<GroupEvent>)
    requires
        robust(g, known),
        g.can_all(events),
    ensures
        robust(g.after_all(events), known_through(g, known, events)),
    decreases events.len(),
{
    if events.len() == 0 {
        assert(known_through(g, known, events).fixed =~= known.fixed);
    } else {
        let before = events.drop_last();
        runs_keep(g, known, before);
        let h = g.after_all(before);
        let k = known_through(g, known, before);
        match events.last() {
            GroupEvent::Act { id, event } => {
                act_keeps(h, k, id, event);
            },
            GroupEvent::Drain { id } => {
                drain_keeps(h, k, id);
                assert(known_after(k, h.current[id]).fixed =~= known_through(
                    g,
                    known,
                    events,
                ).fixed);
            },
            GroupEvent::Crash { id, seed } => {
                crash_keeps(h, k, id, seed);
            },
        }
    }
}

/// Whether `w` is a group as it is now, and `p` its past.
spec fn is_now(g: GroupModel, known: Known, w: World, p: Past) -> bool {
    w.members == g.current && explains(w, p, known)
}

proof fn now(g: GroupModel, known: Known) -> (r: (World, Past))
    requires
        robust(g, known),
    ensures
        is_now(g, known, r.0, r.1),
{
    let w = seen(g, g.ids());
    assert(sane(w, known));
    let p = choose|p: Past| explains(w, p, known);
    assert(w.members =~= g.current);
    (w, p)
}

/// A group as it is after a sequence of events, and its past.
proof fn present(g: GroupModel, events: Seq<GroupEvent>) -> (r: (World, Past))
    requires
        g.initial(),
        g.can_all(events),
    ensures
        is_now(
            g.after_all(events),
            known_through(g, nothing_known(), events),
            r.0,
            r.1,
        ),
{
    initial_is_robust(g);
    runs_keep(g, nothing_known(), events);
    now(g.after_all(events), known_through(g, nothing_known(), events))
}

proof fn terms_have_one_leader(w: World, p: Past, a: Seq<char>, b: Seq<char>)
    requires
        inv(w, p),
        w.members.dom().contains(a),
        w.members.dom().contains(b),
        w.members[a].role == Role::Leader,
        w.members[b].role == Role::Leader,
        w.members[a].current_term == w.members[b].current_term,
    ensures
        a == b,
{
    of_member(w, p, a);
    of_member(w, p, b);
}

proof fn equal_terms_match(w: World, p: Past, a: Seq<char>, b: Seq<char>, n: int, i: int)
    requires
        inv(w, p),
        w.members.dom().contains(a),
        w.members.dom().contains(b),
        w.members[a].base_index < i <= n <= w.members[a].last_index(),
        w.members[b].base_index < i <= n <= w.members[b].last_index(),
        w.members[a].term_at(n) == w.members[b].term_at(n),
    ensures
        raft_laws::entry_at(w.members[a], i) == raft_laws::entry_at(w.members[b], i),
{
    let s = w.members[a];
    let t = w.members[b];
    of_member(w, p, a);
    of_member(w, p, b);
    let x = p.full[a];
    let y = p.full[b];
    terms_fit(s, x, n);
    terms_fit(t, y, n);
    logs_match(p, x, y, s.current_term as int, t.current_term as int, n);
    assert(x[i - 1] == y[i - 1]);
    assert(x[i - 1] == s.log[i - 1 - s.base_index]);
    assert(y[i - 1] == t.log[i - 1 - t.base_index]);
}

proof fn leader_has_committed(w: World, p: Past, a: Seq<char>, b: Seq<char>, i: int)
    requires
        inv(w, p),
        w.members.dom().contains(a),
        w.members.dom().contains(b),
        w.members[a].base_index < i <= w.members[a].commit_index,
        w.members[b].role == Role::Leader,
        w.members[b].current_term >= w.members[a].current_term,
    ensures
        i <= w.members[b].last_index(),
        w.members[b].base_index < i ==> raft_laws::entry_at(w.members[b], i)
            == raft_laws::entry_at(w.members[a], i),
{
    let ids = w.members.dom();
    let s = w.members[a];
    let t = w.members[b];
    of_member(w, p, a);
    of_member(w, p, b);
    let x = p.full[a];
    let y = p.full[b];
    let k = s.commit_index as int;
    settled_extends(ids, p, p, x, x, k, s.current_term as int, t.current_term as int);
    leader_has_settled(w, p, x, k, t.current_term);
    assert(x[i - 1] == s.log[i - 1 - s.base_index]);
    if t.base_index < i {
        assert(y[i - 1] == t.log[i - 1 - t.base_index]);
        assert(y[i - 1] == x[i - 1]);
    }
}

proof fn committed_agree(w: World, p: Past, a: Seq<char>, b: Seq<char>, i: int)
    requires
        inv(w, p),
        w.members.dom().contains(a),
        w.members.dom().contains(b),
        w.members[a].base_index < i <= w.members[a].commit_index,
        w.members[b].base_index < i <= w.members[b].commit_index,
    ensures
        raft_laws::entry_at(w.members[a], i) == raft_laws::entry_at(w.members[b], i),
{
    let ids = w.members.dom();
    let s = w.members[a];
    let t = w.members[b];
    of_member(w, p, a);
    of_member(w, p, b);
    let x = p.full[a];
    let y = p.full[b];
    let (c, k) = choose|c: u64, k: int|
        #[trigger] chosen(ids, p, c, k) && c <= s.current_term && s.commit_index <= k && agree(
            x,
            p.logs[c],
            s.commit_index as int,
        );
    let (d, n) = choose|d: u64, n: int|
        #[trigger] chosen(ids, p, d, n) && d <= t.current_term && t.commit_index <= n && agree(
            y,
            p.logs[d],
            t.commit_index as int,
        );
    assert(x[i - 1] == p.logs[c][i - 1]);
    assert(y[i - 1] == p.logs[d][i - 1]);
    if c < d {
        chosen_is_open(w, p, c, k);
        of_pair(w, p, c, d, k);
        assert(p.logs[c][i - 1] == p.logs[d][i - 1]);
    } else if d < c {
        chosen_is_open(w, p, d, n);
        of_pair(w, p, d, c, n);
        assert(p.logs[c][i - 1] == p.logs[d][i - 1]);
    }
    assert(x[i - 1] == s.log[i - 1 - s.base_index]);
    assert(y[i - 1] == t.log[i - 1 - t.base_index]);
}

/// No term ever has two leaders at once.
pub proof fn one_leader_per_term(
    g: GroupModel,
    events: Seq<GroupEvent>,
    a: Seq<char>,
    b: Seq<char>,
)
    requires
        g.initial(),
        g.can_all(events),
        g.after_all(events).ids().contains(a),
        g.after_all(events).ids().contains(b),
        g.after_all(events).current[a].role == Role::Leader,
        g.after_all(events).current[b].role == Role::Leader,
        g.after_all(events).current[a].current_term == g.after_all(events).current[b].current_term,
    ensures
        a == b,
{
    let (w, p) = present(g, events);
    terms_have_one_leader(w, p, a, b);
}

/// Where two members have an entry of the same term at the same index, their logs are the same up
/// to there.
pub proof fn logs_with_equal_terms_match(
    g: GroupModel,
    events: Seq<GroupEvent>,
    a: Seq<char>,
    b: Seq<char>,
    n: int,
    i: int,
)
    requires
        g.initial(),
        g.can_all(events),
        g.after_all(events).ids().contains(a),
        g.after_all(events).ids().contains(b),
        ({
            let s = g.after_all(events).current[a];
            let t = g.after_all(events).current[b];
            &&& s.base_index < i <= n <= s.last_index()
            &&& t.base_index < i <= n <= t.last_index()
            &&& s.term_at(n) == t.term_at(n)
        }),
    ensures
        raft_laws::entry_at(g.after_all(events).current[a], i) == raft_laws::entry_at(
            g.after_all(events).current[b],
            i,
        ),
{
    let (w, p) = present(g, events);
    equal_terms_match(w, p, a, b, n, i);
}

/// A leader has every entry that a member of no later term has committed.
pub proof fn leaders_have_committed_entries(
    g: GroupModel,
    events: Seq<GroupEvent>,
    a: Seq<char>,
    b: Seq<char>,
    i: int,
)
    requires
        g.initial(),
        g.can_all(events),
        g.after_all(events).ids().contains(a),
        g.after_all(events).ids().contains(b),
        ({
            let s = g.after_all(events).current[a];
            let t = g.after_all(events).current[b];
            &&& s.base_index < i <= s.commit_index
            &&& t.role == Role::Leader
            &&& t.current_term >= s.current_term
        }),
    ensures
        ({
            let s = g.after_all(events).current[a];
            let t = g.after_all(events).current[b];
            &&& i <= t.last_index()
            &&& t.base_index < i ==> raft_laws::entry_at(t, i) == raft_laws::entry_at(s, i)
        }),
{
    let (w, p) = present(g, events);
    leader_has_committed(w, p, a, b, i);
}

/// Two members agree on every entry that both have committed.
pub proof fn committed_entries_agree(
    g: GroupModel,
    events: Seq<GroupEvent>,
    a: Seq<char>,
    b: Seq<char>,
    i: int,
)
    requires
        g.initial(),
        g.can_all(events),
        g.after_all(events).ids().contains(a),
        g.after_all(events).ids().contains(b),
        ({
            let s = g.after_all(events).current[a];
            let t = g.after_all(events).current[b];
            &&& s.base_index < i <= s.commit_index
            &&& t.base_index < i <= t.commit_index
        }),
    ensures
        raft_laws::entry_at(g.after_all(events).current[a], i) == raft_laws::entry_at(
            g.after_all(events).current[b],
            i,
        ),
{
    let (w, p) = present(g, events);
    committed_agree(w, p, a, b, i);
}

/// No two commands are ever handed out for the same index, whichever members hand them out and
/// whenever they do, through crashes, restarts, and lost, repeated and reordered messages.
pub proof fn one_command_per_index(
    g: GroupModel,
    events: Seq<GroupEvent>,
    i: u64,
    a: CommandModel,
    b: CommandModel,
)
    requires
        g.initial(),
        g.can_all(events),
        handed_out(g, events).contains((i, a)),
        handed_out(g, events).contains((i, b)),
    ensures
        a == b,
{
    let (w, p) = present(g, events);
    let known = known_through(g, nothing_known(), events);
    assert(known.fixed.contains((i, a)));
    assert(known.fixed.contains((i, b)));
    fixed_once(w, p, i, a, b);
}

/// What a leader wrote and saved is known.
proof fn saved_is_written(g: GroupModel, known: Known, x: Written)
    requires
        robust(g, known),
        g.ids().contains(x.id),
        g.saved[x.id] == g.current[x.id],
        ({
            let s = g.current[x.id];
            &&& s.role == Role::Leader
            &&& s.current_term == x.term
            &&& s.base_index < x.index <= s.last_index()
            &&& raft_laws::entry_at(s, x.index as int).command == Some(x.command)
        }),
    ensures
        robust(g, (Known { written: known.written.insert(x), ..known })),
{
    let all = Known { written: known.written.insert(x), ..known };
    let s = g.current[x.id];
    assert forall|fresh: Set<Seq<char>>| #[trigger] sane(seen(g, fresh), all) by {
        let w = seen(g, fresh);
        assert(sane(w, known));
        let p = choose|p: Past| explains(w, p, known);
        assert(w.members.dom().contains(x.id));
        assert(w.members[x.id] == s);
        of_member(w, p, x.id);
        of_group(w, p);
        let f = p.full[x.id];
        assert(f[x.index - 1] == s.log[x.index - 1 - s.base_index]);
        assert(wrote(p, x));
        assert(explains(w, p, all));
    }
}

/// What a leader wrote is settled once that leader, still in the same term, has saved that it is
/// committed.
proof fn committed_is_fixed(g: GroupModel, known: Known, x: Written)
    requires
        robust(g, known),
        known.written.contains(x),
        g.ids().contains(x.id),
        g.saved[x.id] == g.current[x.id],
        g.current[x.id].current_term == x.term,
        g.current[x.id].commit_index >= x.index,
    ensures
        robust(g, (Known { fixed: known.fixed.insert((x.index, x.command)), ..known })),
{
    let all = Known { fixed: known.fixed.insert((x.index, x.command)), ..known };
    let s = g.current[x.id];
    assert forall|fresh: Set<Seq<char>>| #[trigger] sane(seen(g, fresh), all) by {
        let w = seen(g, fresh);
        assert(sane(w, known));
        let p = choose|p: Past| explains(w, p, known);
        assert(w.members.dom().contains(x.id));
        assert(w.members[x.id] == s);
        of_member(w, p, x.id);
        assert(wrote(p, x));
        let ids = w.members.dom();
        let f = p.full[x.id];
        let k = s.commit_index as int;
        let (t, n) = choose|t: u64, n: int|
            #[trigger] chosen(ids, p, t, n) && t <= s.current_term && k <= n && agree(
                f,
                p.logs[t],
                k,
            );
        assert(f[x.index - 1] == p.logs[t][x.index - 1]);
        assert(fixed(ids, p, (x.index, x.command)));
        assert(explains(w, p, all));
    }
}

/// A leader takes a command in and is drained: what it wrote is known.
proof fn writing_is_known(
    g: GroupModel,
    known: Known,
    id: Seq<char>,
    command: CommandModel,
) -> (k: Known)
    requires
        robust(g, known),
        g.can(GroupEvent::Act { id, event: Event::Propose { command } }),
        g.current[id].role == Role::Leader,
    ensures
        robust(
            g.next(GroupEvent::Act { id, event: Event::Propose { command } }).next(
                GroupEvent::Drain { id },
            ),
            k,
        ),
        k.written.contains(
            (Written {
                id,
                term: g.current[id].current_term,
                index: (g.current[id].last_index() + 1) as u64,
                command,
            }),
        ),
{
    let s = g.current[id];
    let a = g.next(GroupEvent::Act { id, event: Event::Propose { command } });
    let b = a.next(GroupEvent::Drain { id });
    let x = Written {
        id,
        term: s.current_term,
        index: (s.last_index() + 1) as u64,
        command,
    };
    act_keeps(g, known, id, Event::Propose { command });
    drain_keeps(a, known, id);
    let k = known_after(known, a.current[id]);
    proposing_appends(s, command);
    saved_is_written(b, k, x);
    Known { written: k.written.insert(x), ..k }
}

/// A leader is drained with what it wrote committed: that is settled.
proof fn committing_is_known(g: GroupModel, known: Known, x: Written) -> (k: Known)
    requires
        robust(g, known),
        known.written.contains(x),
        g.can(GroupEvent::Drain { id: x.id }),
        g.next(GroupEvent::Drain { id: x.id }).current[x.id].current_term == x.term,
        g.next(GroupEvent::Drain { id: x.id }).current[x.id].commit_index >= x.index,
    ensures
        robust(g.next(GroupEvent::Drain { id: x.id }), k),
        k.fixed.contains((x.index, x.command)),
{
    let h = g.next(GroupEvent::Drain { id: x.id });
    drain_keeps(g, known, x.id);
    let k = known_after(known, g.current[x.id]);
    committed_is_fixed(h, k, x);
    Known { fixed: k.fixed.insert((x.index, x.command)), ..k }
}

/// For a settled index nothing else is handed out.
proof fn nothing_else_handed_out(
    g: GroupModel,
    known: Known,
    events: Seq<GroupEvent>,
    x: Written,
    other: CommandModel,
)
    requires
        robust(g, known),
        g.can_all(events),
        known.fixed.contains((x.index, x.command)),
        handed_out(g, events).contains((x.index, other)),
    ensures
        other == x.command,
{
    runs_keep(g, known, events);
    let k = known_through(g, known, events);
    let (w, p) = now(g.after_all(events), k);
    assert(k.fixed.contains((x.index, x.command)));
    assert(k.fixed.contains((x.index, other)));
    fixed_once(w, p, x.index, x.command, other);
}

/// An acknowledged write stands. A leader took a command in and was drained. Later it was drained
/// again, was still in the same term, and had the command's index committed: that is when a
/// proposal reports success. From then on, whatever happens, nothing but that command is ever
/// handed out for its index, by any member.
pub proof fn acknowledged_commands_stand(
    g: GroupModel,
    before: Seq<GroupEvent>,
    id: Seq<char>,
    command: CommandModel,
    between: Seq<GroupEvent>,
    later: Seq<GroupEvent>,
    other: CommandModel,
)
    requires
        g.initial(),
        g.can_all(before),
        ({
            let a = g.after_all(before);
            let s = a.current[id];
            let propose = GroupEvent::Act { id, event: Event::Propose { command } };
            let drain = GroupEvent::Drain { id };
            let b = a.next(propose).next(drain);
            let c = b.after_all(between);
            let d = c.next(drain);
            &&& a.can(propose)
            &&& s.role == Role::Leader
            &&& a.next(propose).can(drain)
            &&& b.can_all(between)
            &&& c.can(drain)
            &&& d.current[id].current_term == s.current_term
            &&& d.current[id].commit_index > s.last_index()
            &&& d.can_all(later)
            &&& handed_out(d, later).contains(((s.last_index() + 1) as u64, other))
        }),
    ensures
        other == command,
{
    let a = g.after_all(before);
    let s = a.current[id];
    let propose = GroupEvent::Act { id, event: Event::Propose { command } };
    let drain = GroupEvent::Drain { id };
    let b = a.next(propose).next(drain);
    let c = b.after_all(between);
    let d = c.next(drain);
    let x = Written {
        id,
        term: s.current_term,
        index: (s.last_index() + 1) as u64,
        command,
    };
    initial_is_robust(g);
    runs_keep(g, nothing_known(), before);
    let k1 = writing_is_known(a, known_through(g, nothing_known(), before), id, command);
    runs_keep(b, k1, between);
    let k2 = committing_is_known(c, known_through(b, k1, between), x);
    nothing_else_handed_out(d, k2, later, x, other);
}

proof fn proposing_appends(s: RaftModel, command: CommandModel)
    requires
        s.role == Role::Leader,
        s.last_index() < u64::MAX,
    ensures
        ({
            let t = s.proposed(command);
            &&& t.role == Role::Leader
            &&& t.current_term == s.current_term
            &&& t.base_index == s.base_index
            &&& t.log == s.log.push(
                EntryModel {
                    term: s.current_term,
                    index: (s.last_index() + 1) as u64,
                    command: Some(command),
                },
            )
        }),
{
    let a = s.appending(Some(command));
    a.advancing().replicating_frame(a.peers);
}

} // verus!
