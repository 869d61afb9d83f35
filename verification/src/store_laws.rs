//! What recovery believes, said of the files: which states are sound, which lines make up a log,
//! and what is restored from them.

use crate::raft_model::{EntryModel, PersistedModel};
use crate::raft_store;
use crate::raft_store::{
    LineReadModel, LogHeader, MetaReadModel, SnapshotReadModel, StoreErrorModel,
};
use vstd::prelude::*;

verus! {

/// Whether a durable state is one that a member can have saved: there is no vote before the first
/// term, a snapshot stands exactly where the log has a base, the entries run on from the base
/// without a gap, in terms that never descend nor run ahead of the current one, and the commit
/// point lies on the log.
pub open spec fn is_sound(p: PersistedModel) -> bool {
    &&& p.voted_for is Some ==> p.current_term > 0
    &&& p.base_index == 0 <==> p.base_term == 0
    &&& p.base_index == 0 <==> p.snapshot is None
    &&& p.base_term <= p.current_term
    &&& p.base_index <= p.commit_index <= p.base_index + p.log.len() <= u64::MAX
    &&& forall|k: int|
        0 <= k < p.log.len() ==> (#[trigger] p.log[k]).index == p.base_index + 1 + k
            && p.base_term <= p.log[k].term <= p.current_term && p.log[k].term > 0
    &&& forall|j: int, k: int|
        0 <= j < k < p.log.len() ==> (#[trigger] p.log[j]).term <= (#[trigger] p.log[k]).term
}

proof fn faultless_entries(p: PersistedModel, i: int)
    requires
        0 <= i <= p.log.len(),
        raft_store::log_fault(p, i) is None,
    ensures
        forall|k: int|
            i <= k < p.log.len() ==> (#[trigger] p.log[k]).index == p.base_index + 1 + k
                && p.log[k].term <= p.current_term && p.log[k].term > 0,
        forall|k: int|
            i <= k < p.log.len() ==> (#[trigger] p.log[k]).term >= if i == 0 {
                p.base_term
            } else {
                p.log[i - 1].term
            },
        forall|j: int, k: int|
            i <= j < k < p.log.len() ==> (#[trigger] p.log[j]).term <= (#[trigger] p.log[k]).term,
    decreases p.log.len() - i,
{
    if i < p.log.len() {
        faultless_entries(p, i + 1);
    }
}

proof fn sound_entries(p: PersistedModel, i: int)
    requires
        is_sound(p),
        0 <= i <= p.log.len(),
    ensures
        raft_store::log_fault(p, i) is None,
    decreases p.log.len() - i,
{
    if i < p.log.len() {
        sound_entries(p, i + 1);
        if i > 0 {
            assert(p.log[i - 1].term <= p.log[i].term);
        }
    }
}

/// A durable state is without fault exactly when it is sound.
pub proof fn faultless_is_sound(p: PersistedModel)
    ensures
        raft_store::fault(p) is None <==> is_sound(p),
{
    if raft_store::fault(p) is None {
        faultless_entries(p, 0);
        if p.log.len() > 0 {
            assert(p.log[p.log.len() - 1].index == p.base_index + p.log.len());
        }
    }
    if is_sound(p) {
        sound_entries(p, 0);
    }
}

/// Whether a fault that is reported of an entry is one that the entry has.
pub open spec fn is_entry_fault(p: PersistedModel, i: int, e: StoreErrorModel) -> bool {
    let expected = p.base_index + 1 + i;
    let previous = if i == 0 {
        p.base_term
    } else {
        p.log[i - 1].term
    };
    &&& 0 <= i < p.log.len()
    &&& match e {
        StoreErrorModel::IndexOverflow => expected > u64::MAX,
        StoreErrorModel::NotContiguous { expected: e, found } => e == expected && found
            == p.log[i].index && found != e,
        StoreErrorModel::TermZero { index } => index == expected && p.log[i].index == index
            && p.log[i].term == 0,
        StoreErrorModel::TermDescends { index, previous: was, found } => index == expected
            && p.log[i].index == index && was == previous && found == p.log[i].term && found < was,
        StoreErrorModel::TermAhead { term, index, current_term } => index == expected
            && p.log[i].index == index && term == p.log[i].term && current_term == p.current_term
            && term > current_term,
        _ => false,
    }
}

proof fn entry_faults_are_true(p: PersistedModel, i: int)
    requires
        0 <= i <= p.log.len(),
        raft_store::log_fault(p, i) is Some,
    ensures
        exists|k: int| i <= k && #[trigger] is_entry_fault(p, k, raft_store::log_fault(p, i)->0),
    decreases p.log.len() - i,
{
    if i < p.log.len() {
        if raft_store::log_fault(p, i) == raft_store::log_fault(p, i + 1)
            && raft_store::log_fault(p, i + 1) is Some && !is_entry_fault(
            p,
            i,
            raft_store::log_fault(p, i)->0,
        ) {
            entry_faults_are_true(p, i + 1);
            let k = choose|k: int|
                i + 1 <= k && #[trigger] is_entry_fault(
                    p,
                    k,
                    raft_store::log_fault(p, i + 1)->0,
                );
            assert(is_entry_fault(p, k, raft_store::log_fault(p, i)->0));
        } else {
            assert(is_entry_fault(p, i, raft_store::log_fault(p, i)->0));
        }
    }
}

/// A fault that is reported is one that the state has, with its numbers.
pub proof fn reported_faults_are_true(p: PersistedModel)
    ensures
        raft_store::fault(p) matches Some(e) ==> match e {
            StoreErrorModel::VoteInTermZero => p.voted_for is Some && p.current_term == 0,
            StoreErrorModel::BaseMismatch { index, term } => index == p.base_index && term
                == p.base_term && (index == 0) != (term == 0),
            StoreErrorModel::SnapshotPresence => (p.base_index == 0) != (p.snapshot is None),
            StoreErrorModel::SnapshotTermAhead { base_term, current_term } => base_term
                == p.base_term && current_term == p.current_term && base_term > current_term,
            StoreErrorModel::CommitBeforeBase { commit, base } => commit == p.commit_index && base
                == p.base_index && commit < base,
            StoreErrorModel::CommitBeyondLog { commit, last } => commit == p.commit_index && last
                == p.base_index + p.log.len() && commit > last,
            _ => exists|k: int| #[trigger] is_entry_fault(p, k, e),
        },
{
    if raft_store::fault(p) is Some {
        if raft_store::log_fault(p, 0) is Some {
            entry_faults_are_true(p, 0);
        } else {
            faultless_entries(p, 0);
            if p.log.len() > 0 {
                assert(p.log[p.log.len() - 1].index == p.base_index + p.log.len());
            }
        }
    }
}

/// Whether the line at `i` may be passed over at the end of a log: it is empty, after a line end or
/// alone, or it is a torn record, without a line end.
pub open spec fn may_be_dropped(lines: Seq<LineReadModel>, terminated: bool, i: int) -> bool {
    &&& i == lines.len() - 1
    &&& match lines[i] {
        LineReadModel::Blank => terminated || lines.len() == 1,
        LineReadModel::Record { header, entry } => entry is Err && !terminated,
    }
}

/// Whether the lines from `i` on hold the entries, and nothing more that counts.
pub open spec fn holds_from(
    lines: Seq<LineReadModel>,
    terminated: bool,
    i: int,
    entries: Seq<EntryModel>,
) -> bool {
    let end = i + entries.len();
    &&& forall|k: int|
        0 <= k < entries.len() ==> i + k < lines.len() && (#[trigger] lines[i + k] matches
            LineReadModel::Record { header, entry } && entry == Ok::<_, Seq<char>>(entries[k]))
    &&& end == lines.len() || may_be_dropped(lines, terminated, end)
}

/// Whether the lines are a log with that header in front, or with none, and those entries.
pub open spec fn holds_log(
    lines: Seq<LineReadModel>,
    terminated: bool,
    header: Option<LogHeader>,
    entries: Seq<EntryModel>,
) -> bool {
    if lines.len() > 0 && lines[0] is Record && lines[0]->header is Some {
        header == lines[0]->header && holds_from(lines, terminated, 1, entries)
    } else {
        header is None && holds_from(lines, terminated, 0, entries)
    }
}

/// Whether reading goes on at the line at `i` as at one that is no header.
spec fn behind_header(lines: Seq<LineReadModel>, i: int) -> bool {
    i > 0 || i >= lines.len() || lines[i] is Blank || lines[i]->header is None
}

proof fn read_lines_hold(
    lines: Seq<LineReadModel>,
    terminated: bool,
    i: int,
    header: Option<LogHeader>,
    log: Seq<EntryModel>,
)
    requires
        0 <= i <= lines.len(),
        behind_header(lines, i),
    ensures
        raft_store::lines_read(lines, terminated, i, header, log) matches Ok(r) ==> r.0 == header
            && log.len() <= r.1.len() && r.1.take(log.len() as int) == log && holds_from(
            lines,
            terminated,
            i,
            r.1.skip(log.len() as int),
        ),
    decreases lines.len() - i,
{
    if let Ok(r) = raft_store::lines_read(lines, terminated, i, header, log) {
        if i < lines.len() && lines[i] is Record && lines[i]->entry is Ok {
            let e = lines[i]->entry->Ok_0;
            read_lines_hold(lines, terminated, i + 1, header, log.push(e));
            let after = r.1.skip(log.len() as int + 1);
            let here = r.1.skip(log.len() as int);
            assert(r.1.take(log.len() as int + 1)[log.len() as int] == e);
            assert(r.1.take(log.len() as int) =~= log) by {
                assert forall|k: int| 0 <= k < log.len() implies r.1[k] == log[k] by {
                    assert(r.1.take(log.len() as int + 1)[k] == log.push(e)[k]);
                }
            }
            assert forall|k: int| 0 <= k < here.len() implies i + k < lines.len() && (
            #[trigger] lines[i + k] matches LineReadModel::Record { header, entry } && entry == Ok::<
                _,
                Seq<char>,
            >(here[k])) by {
                if k > 0 {
                    assert(here[k] == after[k - 1]);
                    assert(lines[i + 1 + (k - 1)] is Record);
                }
            }
        } else {
            assert(r.1 == log);
            assert(r.1.skip(log.len() as int) =~= Seq::empty());
            assert(r.1.take(log.len() as int) =~= log);
        }
    }
}

proof fn held_lines_are_read(
    lines: Seq<LineReadModel>,
    terminated: bool,
    i: int,
    header: Option<LogHeader>,
    log: Seq<EntryModel>,
    entries: Seq<EntryModel>,
)
    requires
        0 <= i <= lines.len(),
        behind_header(lines, i),
        holds_from(lines, terminated, i, entries),
    ensures
        raft_store::lines_read(lines, terminated, i, header, log) == Ok::<
            (Option<LogHeader>, Seq<EntryModel>),
            StoreErrorModel,
        >((header, log + entries)),
    decreases lines.len() - i,
{
    if entries.len() > 0 {
        assert(lines[i + 0] is Record);
        let rest = entries.skip(1);
        assert forall|k: int| 0 <= k < rest.len() implies i + 1 + k < lines.len() && (
        #[trigger] lines[i + 1 + k] matches LineReadModel::Record { header, entry } && entry == Ok::<
            _,
            Seq<char>,
        >(rest[k])) by {
            assert(lines[i + (k + 1)] is Record);
        }
        held_lines_are_read(lines, terminated, i + 1, header, log.push(entries[0]), rest);
        assert(log.push(entries[0]) + rest =~= log + entries);
    } else {
        assert(log + entries =~= log);
    }
}

/// The lines of a log file are read exactly as what they hold: a header in front, if there is one,
/// and every entry, in order; a torn last record is dropped, and nothing else is.
pub proof fn logs_are_read_as_they_are(
    lines: Seq<LineReadModel>,
    terminated: bool,
    header: Option<LogHeader>,
    entries: Seq<EntryModel>,
)
    ensures
        raft_store::lines_read(lines, terminated, 0, None, Seq::empty()) == Ok::<
            (Option<LogHeader>, Seq<EntryModel>),
            StoreErrorModel,
        >((header, entries)) <==> holds_log(lines, terminated, header, entries),
{
    let r = raft_store::lines_read(lines, terminated, 0, None, Seq::empty());
    let headed = lines.len() > 0 && lines[0] is Record && lines[0]->header is Some;
    let start: int = if headed {
        1
    } else {
        0
    };
    let h = if headed {
        lines[0]->header
    } else {
        None
    };
    assert(r == raft_store::lines_read(lines, terminated, start, h, Seq::empty()));
    read_lines_hold(lines, terminated, start, h, Seq::empty());
    if let Ok(found) = r {
        assert(found.1.skip(0) =~= found.1);
    }
    if holds_log(lines, terminated, header, entries) {
        held_lines_are_read(lines, terminated, start, h, Seq::empty(), entries);
        assert(Seq::<EntryModel>::empty() + entries =~= entries);
    }
}

proof fn refused_from(
    lines: Seq<LineReadModel>,
    terminated: bool,
    i: int,
    header: Option<LogHeader>,
    log: Seq<EntryModel>,
)
    requires
        0 <= i <= lines.len() <= u64::MAX,
        behind_header(lines, i),
    ensures
        raft_store::lines_read(lines, terminated, i, header, log) matches Err(e) ==> (e matches
            StoreErrorModel::BlankRecord { line } && i < line <= lines.len() && lines[line - 1]
            is Blank && !may_be_dropped(lines, terminated, line - 1)) || (e matches
            StoreErrorModel::BadRecord { line, reason } && i < line <= lines.len() && lines[line
            - 1] is Record && lines[line - 1]->entry == Err::<EntryModel, _>(reason)
            && !may_be_dropped(lines, terminated, line - 1)),
    decreases lines.len() - i,
{
    if i < lines.len() && lines[i] is Record && lines[i]->entry is Ok {
        refused_from(lines, terminated, i + 1, header, log.push(lines[i]->entry->Ok_0));
    }
}

/// A log file that is refused is refused for a line that cannot be read and may not be dropped, and
/// the refusal names it, counted from one.
pub proof fn refused_lines_are_named(lines: Seq<LineReadModel>, terminated: bool)
    requires
        lines.len() <= u64::MAX,
    ensures
        raft_store::lines_read(lines, terminated, 0, None, Seq::empty()) matches Err(e) ==> (
        e matches StoreErrorModel::BlankRecord { line } && 0 < line <= lines.len() && lines[line
            - 1] is Blank && !may_be_dropped(lines, terminated, line - 1)) || (e matches
            StoreErrorModel::BadRecord { line, reason } && 0 < line <= lines.len() && lines[line
            - 1] is Record && lines[line - 1]->entry == Err::<EntryModel, _>(reason)
            && !may_be_dropped(lines, terminated, line - 1)),
{
    let headed = lines.len() > 0 && lines[0] is Record && lines[0]->header is Some;
    if headed {
        refused_from(lines, terminated, 1, lines[0]->header, Seq::empty());
    } else {
        refused_from(lines, terminated, 0, None, Seq::empty());
    }
}

/// Whether the files restore a state, the log having been read: the hard state is the one that was
/// read, or that of a member that never was, where there are no other files; the base is the
/// log's own where it names one; and what a snapshot covers counts as committed.
pub open spec fn restores(
    meta: MetaReadModel,
    snapshot: SnapshotReadModel,
    header: Option<LogHeader>,
    p: PersistedModel,
) -> bool {
    &&& header matches Some(h) ==> h.v == 1 && p.base_index == h.base_index && p.base_term
        == h.base_term
    &&& match snapshot {
        SnapshotReadModel::Missing => p.snapshot is None,
        SnapshotReadModel::Empty => false,
        SnapshotReadModel::Read(bytes) => p.snapshot == Some(bytes),
    }
    &&& match meta {
        MetaReadModel::Missing => {
            &&& p.current_term == 0 && p.voted_for is None && p.commit_index == 0
            &&& p.base_index == 0 && p.base_term == 0 && p.log.len() == 0 && p.snapshot is None
        },
        MetaReadModel::Read(m) => {
            &&& p.current_term == m.current_term && p.voted_for == m.voted_for
            &&& header is None ==> p.base_index == m.base_index && p.base_term == m.base_term
            &&& p.commit_index >= m.commit_index && p.commit_index >= p.base_index
            &&& p.commit_index == m.commit_index || p.commit_index == p.base_index
        },
        _ => false,
    }
    &&& is_sound(p)
}

/// A state is recovered exactly when the files restore it, and so only when all of them can be
/// believed.
pub proof fn what_is_recovered(
    meta: MetaReadModel,
    snapshot: SnapshotReadModel,
    lines: Seq<LineReadModel>,
    terminated: bool,
    p: PersistedModel,
)
    ensures
        raft_store::recovered(meta, snapshot, lines, terminated) == Ok::<
            PersistedModel,
            StoreErrorModel,
        >(p) <==> exists|header: Option<LogHeader>| #[trigger]
            holds_log(lines, terminated, header, p.log) && restores(meta, snapshot, header, p),
{
    let r = raft_store::recovered(meta, snapshot, lines, terminated);
    let found = raft_store::lines_read(lines, terminated, 0, None, Seq::empty());
    if r == Ok::<PersistedModel, StoreErrorModel>(p) {
        let (header, log) = found->Ok_0;
        logs_are_read_as_they_are(lines, terminated, header, log);
        faultless_is_sound(p);
        assert(holds_log(lines, terminated, header, p.log));
        if meta is Missing {
            assert(p.base_term == 0);
        }
    }
    if exists|header: Option<LogHeader>| #[trigger]
        holds_log(lines, terminated, header, p.log) && restores(meta, snapshot, header, p) {
        let header = choose|header: Option<LogHeader>| #[trigger]
            holds_log(lines, terminated, header, p.log) && restores(meta, snapshot, header, p);
        logs_are_read_as_they_are(lines, terminated, header, p.log);
        faultless_is_sound(p);
        let q = raft_store::assembled(meta, snapshot, header, p.log);
        assert(q =~= p);
    }
}

/// The lines of a file hold no line end, and make the file up again when each of them but the last
/// is ended.
pub proof fn lines_make_up_the_file(bytes: Seq<u8>)
    ensures
        raft_store::split_at_ends(bytes).len() > 0,
        forall|i: int, j: int|
            0 <= i < raft_store::split_at_ends(bytes).len() && 0 <= j
                < raft_store::split_at_ends(bytes)[i].len() ==> #[trigger] raft_store::split_at_ends(
                bytes,
            )[i][j] != 10,
        raft_store::split_at_ends(bytes).drop_last().map_values(
            |l: Seq<u8>| l.push(10),
        ).flatten() + raft_store::split_at_ends(bytes).last() == bytes,
    decreases bytes.len(),
{
    let f = |l: Seq<u8>| l.push(10);
    let here = raft_store::split_at_ends(bytes);
    here.drop_last().map_values(f).lemma_flatten_and_flatten_alt_are_equivalent();
    if bytes.len() == 0 {
        assert(here.drop_last().map_values(f) =~= Seq::empty());
        assert(here.drop_last().map_values(f).flatten() + here.last() =~= bytes);
    } else {
        let rest = bytes.drop_last();
        lines_make_up_the_file(rest);
        let before = raft_store::split_at_ends(rest);
        before.drop_last().map_values(f).lemma_flatten_and_flatten_alt_are_equivalent();
        assert(rest.push(bytes.last()) =~= bytes);
        if bytes.last() == 10 {
            assert(here.drop_last() =~= before);
            let all = before.map_values(f);
            assert(all.drop_last() =~= before.drop_last().map_values(f));
            assert(all.flatten_alt() =~= all.drop_last().flatten_alt() + all.last());
            assert(all.flatten() + here.last() =~= bytes);
        } else {
            assert(here.drop_last() =~= before.drop_last());
            assert(here.drop_last().map_values(f).flatten() + here.last() =~= bytes);
            assert forall|i: int, j: int|
                0 <= i < here.len() && 0 <= j < here[i].len() implies #[trigger] here[i][j]
                != 10 by {
                if i < here.len() - 1 || j < before.last().len() {
                    assert(here[i][j] == before[i][j]);
                }
            }
        }
    }
}

/// A framed file is its lines, each with a line end behind it.
pub proof fn framed_lines_are_ended(lines: Seq<Seq<u8>>)
    ensures
        raft_store::ended_lines(lines) == lines.map_values(|l: Seq<u8>| l.push(10)).flatten(),
    decreases lines.len(),
{
    let f = |l: Seq<u8>| l.push(10);
    let all = lines.map_values(f);
    all.lemma_flatten_and_flatten_alt_are_equivalent();
    if lines.len() > 0 {
        framed_lines_are_ended(lines.drop_last());
        all.drop_last().lemma_flatten_and_flatten_alt_are_equivalent();
        assert(all.drop_last() =~= lines.drop_last().map_values(f));
        assert(all.flatten_alt() =~= all.drop_last().flatten_alt() + all.last());
        assert(raft_store::ended_lines(lines) =~= all.flatten());
    } else {
        assert(raft_store::ended_lines(lines) =~= all.flatten());
    }
}

} // verus!
