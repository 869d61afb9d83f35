//! Recovery and saving of the consensus state: what may be believed of the files a member left,
//! and in which order they are written.
//!
//! A member keeps three files: `meta` (hard state), `log` (a header line and one line per entry)
//! and `snapshot` (the state machine at the log's base). Only a final fragment without a line end
//! can be a torn write; anything else that cannot be read is corruption, and recovery fails closed
//! rather than drop what was committed.

use crate::decimal;
use crate::decimal::{append_number, append_text};
use crate::raft::{LogEntry, Persisted};
use crate::raft_model::{EntryModel, PersistedModel};
use crate::store_laws;
use crate::text::copy_text_opt;
use vstd::prelude::*;

verus! {

/// The format of the log file. A file without a header is the format before it.
pub const LOG_FORMAT_VERSION: u64 = 1;

/// The hard state file.
#[derive(Debug)]
pub struct Meta {
    pub current_term: u64,
    pub voted_for: Option<String>,
    pub commit_index: u64,
    /// The log's base, for log files without a header.
    pub base_index: u64,
    pub base_term: u64,
}

/// The value of a [`Meta`].
#[verifier::ext_equal]
pub struct MetaModel {
    pub current_term: u64,
    pub voted_for: Option<Seq<char>>,
    pub commit_index: u64,
    pub base_index: u64,
    pub base_term: u64,
}

impl DeepView for Meta {
    type V = MetaModel;

    open spec fn deep_view(&self) -> MetaModel {
        MetaModel {
            current_term: self.current_term,
            voted_for: self.voted_for.deep_view(),
            commit_index: self.commit_index,
            base_index: self.base_index,
            base_term: self.base_term,
        }
    }
}

/// The first line of the log file: the base the entries continue from. It stands beside the
/// entries it belongs to, so that one rename carries both.
#[derive(Debug, Clone, Copy, PartialEq, Eq, Structural)]
pub struct LogHeader {
    pub v: u64,
    pub base_index: u64,
    pub base_term: u64,
}

/// What reading the hard state file gave.
#[derive(Debug)]
pub enum MetaRead {
    Missing,
    Empty,
    Invalid(String),
    Read(Meta),
}

/// What a hard state file holds that has these bytes, or is not there, given what its bytes parse
/// to.
pub open spec fn meta_read(
    file: Option<Seq<u8>>,
    parsed: Result<MetaModel, Seq<char>>,
) -> MetaReadModel {
    match file {
        None => MetaReadModel::Missing,
        Some(bytes) => if bytes.len() == 0 {
            MetaReadModel::Empty
        } else {
            match parsed {
                Ok(meta) => MetaReadModel::Read(meta),
                Err(why) => MetaReadModel::Invalid(why),
            }
        },
    }
}

/// What a hard state file holds: `file` is its bytes, or `None` where there is no file, and `parsed`
/// what the bytes parse to.
pub fn read_meta(file: &Option<Vec<u8>>, parsed: Result<Meta, String>) -> (r: MetaRead)
    ensures
        r.deep_view() == meta_read(
            file.deep_view(),
            match parsed {
                Ok(meta) => Ok(meta.deep_view()),
                Err(why) => Err(why@),
            },
        ),
{
    match file {
        None => MetaRead::Missing,
        Some(bytes) => {
            if bytes.len() == 0 {
                return MetaRead::Empty;
            }
            match parsed {
                Ok(meta) => MetaRead::Read(meta),
                Err(why) => MetaRead::Invalid(why),
            }
        },
    }
}

/// The value of a [`MetaRead`].
pub enum MetaReadModel {
    Missing,
    Empty,
    Invalid(Seq<char>),
    Read(MetaModel),
}

impl DeepView for MetaRead {
    type V = MetaReadModel;

    open spec fn deep_view(&self) -> MetaReadModel {
        match self {
            MetaRead::Missing => MetaReadModel::Missing,
            MetaRead::Empty => MetaReadModel::Empty,
            MetaRead::Invalid(why) => MetaReadModel::Invalid(why@),
            MetaRead::Read(m) => MetaReadModel::Read(m.deep_view()),
        }
    }
}

/// What reading the snapshot file gave.
#[derive(Debug)]
pub enum SnapshotRead {
    Missing,
    Empty,
    Read(Vec<u8>),
}

/// What a snapshot file holds that has these bytes, or is not there.
pub open spec fn snapshot_read(file: Option<Seq<u8>>) -> SnapshotReadModel {
    match file {
        None => SnapshotReadModel::Missing,
        Some(bytes) => if bytes.len() == 0 {
            SnapshotReadModel::Empty
        } else {
            SnapshotReadModel::Read(bytes)
        },
    }
}

/// What a snapshot file holds: `file` is its bytes, or `None` where there is no file.
pub fn read_snapshot(file: Option<Vec<u8>>) -> (r: SnapshotRead)
    ensures
        r.deep_view() == snapshot_read(file.deep_view()),
{
    match file {
        None => SnapshotRead::Missing,
        Some(bytes) => {
            if bytes.len() == 0 {
                SnapshotRead::Empty
            } else {
                SnapshotRead::Read(bytes)
            }
        },
    }
}

/// The value of a [`SnapshotRead`].
pub enum SnapshotReadModel {
    Missing,
    Empty,
    Read(Seq<u8>),
}

impl DeepView for SnapshotRead {
    type V = SnapshotReadModel;

    open spec fn deep_view(&self) -> SnapshotReadModel {
        match self {
            SnapshotRead::Missing => SnapshotReadModel::Missing,
            SnapshotRead::Empty => SnapshotReadModel::Empty,
            SnapshotRead::Read(b) => SnapshotReadModel::Read(b.deep_view()),
        }
    }
}

/// What reading one line of the log file gave.
#[derive(Debug)]
pub enum LineRead {
    /// No bytes.
    Blank,
    /// The line as a header, if it can be read as one, and as an entry, or why not.
    Record { header: Option<LogHeader>, entry: Result<LogEntry, String> },
}

/// What a line of the log file holds, given what its bytes parse to.
pub open spec fn line_read(
    line: Seq<u8>,
    header: Option<LogHeader>,
    entry: Result<EntryModel, Seq<char>>,
) -> LineReadModel {
    if line.len() == 0 {
        LineReadModel::Blank
    } else {
        LineReadModel::Record { header, entry }
    }
}

/// What a line of the log file holds: `header` and `entry` are what its bytes parse to.
pub fn read_line(
    line: &Vec<u8>,
    header: Option<LogHeader>,
    entry: Result<LogEntry, String>,
) -> (r: LineRead)
    ensures
        r.deep_view() == line_read(
            line@,
            header,
            match entry {
                Ok(e) => Ok(e.deep_view()),
                Err(why) => Err(why@),
            },
        ),
{
    if line.len() == 0 {
        LineRead::Blank
    } else {
        LineRead::Record { header, entry }
    }
}

/// The value of a [`LineRead`].
pub enum LineReadModel {
    Blank,
    Record { header: Option<LogHeader>, entry: Result<EntryModel, Seq<char>> },
}

impl DeepView for LineRead {
    type V = LineReadModel;

    open spec fn deep_view(&self) -> LineReadModel {
        match self {
            LineRead::Blank => LineReadModel::Blank,
            LineRead::Record { header, entry } => LineReadModel::Record {
                header: *header,
                entry: match entry {
                    Ok(e) => Ok(e.deep_view()),
                    Err(why) => Err(why@),
                },
            },
        }
    }
}

/// Why recovery or saving is refused.
#[derive(Debug)]
pub enum StoreError {
    MetaEmpty,
    MetaInvalid { reason: String },
    SnapshotEmpty,
    BlankRecord { line: u64 },
    BadRecord { line: u64, reason: String },
    UnsupportedFormat { v: u64 },
    MetaMissing,
    VoteInTermZero,
    BaseMismatch { index: u64, term: u64 },
    SnapshotPresence,
    SnapshotTermAhead { base_term: u64, current_term: u64 },
    CommitBeforeBase { commit: u64, base: u64 },
    IndexOverflow,
    NotContiguous { expected: u64, found: u64 },
    TermZero { index: u64 },
    TermDescends { index: u64, previous: u64, found: u64 },
    TermAhead { term: u64, index: u64, current_term: u64 },
    CommitBeyondLog { commit: u64, last: u64 },
    InjectedFailure,
}

/// The value of a [`StoreError`].
pub enum StoreErrorModel {
    MetaEmpty,
    MetaInvalid { reason: Seq<char> },
    SnapshotEmpty,
    BlankRecord { line: u64 },
    BadRecord { line: u64, reason: Seq<char> },
    UnsupportedFormat { v: u64 },
    MetaMissing,
    VoteInTermZero,
    BaseMismatch { index: u64, term: u64 },
    SnapshotPresence,
    SnapshotTermAhead { base_term: u64, current_term: u64 },
    CommitBeforeBase { commit: u64, base: u64 },
    IndexOverflow,
    NotContiguous { expected: u64, found: u64 },
    TermZero { index: u64 },
    TermDescends { index: u64, previous: u64, found: u64 },
    TermAhead { term: u64, index: u64, current_term: u64 },
    CommitBeyondLog { commit: u64, last: u64 },
    InjectedFailure,
}

impl DeepView for StoreError {
    type V = StoreErrorModel;

    open spec fn deep_view(&self) -> StoreErrorModel {
        match self {
            StoreError::MetaEmpty => StoreErrorModel::MetaEmpty,
            StoreError::MetaInvalid { reason } => StoreErrorModel::MetaInvalid { reason: reason@ },
            StoreError::SnapshotEmpty => StoreErrorModel::SnapshotEmpty,
            StoreError::BlankRecord { line } => StoreErrorModel::BlankRecord { line: *line },
            StoreError::BadRecord { line, reason } => StoreErrorModel::BadRecord {
                line: *line,
                reason: reason@,
            },
            StoreError::UnsupportedFormat { v } => StoreErrorModel::UnsupportedFormat { v: *v },
            StoreError::MetaMissing => StoreErrorModel::MetaMissing,
            StoreError::VoteInTermZero => StoreErrorModel::VoteInTermZero,
            StoreError::BaseMismatch { index, term } => StoreErrorModel::BaseMismatch {
                index: *index,
                term: *term,
            },
            StoreError::SnapshotPresence => StoreErrorModel::SnapshotPresence,
            StoreError::SnapshotTermAhead { base_term, current_term } =>
                StoreErrorModel::SnapshotTermAhead {
                base_term: *base_term,
                current_term: *current_term,
            },
            StoreError::CommitBeforeBase { commit, base } => StoreErrorModel::CommitBeforeBase {
                commit: *commit,
                base: *base,
            },
            StoreError::IndexOverflow => StoreErrorModel::IndexOverflow,
            StoreError::NotContiguous { expected, found } => StoreErrorModel::NotContiguous {
                expected: *expected,
                found: *found,
            },
            StoreError::TermZero { index } => StoreErrorModel::TermZero { index: *index },
            StoreError::TermDescends { index, previous, found } => StoreErrorModel::TermDescends {
                index: *index,
                previous: *previous,
                found: *found,
            },
            StoreError::TermAhead { term, index, current_term } => StoreErrorModel::TermAhead {
                term: *term,
                index: *index,
                current_term: *current_term,
            },
            StoreError::CommitBeyondLog { commit, last } => StoreErrorModel::CommitBeyondLog {
                commit: *commit,
                last: *last,
            },
            StoreError::InjectedFailure => StoreErrorModel::InjectedFailure,
        }
    }
}

impl StoreErrorModel {
    /// The message of a refusal.
    pub open spec fn text(self) -> Seq<char> {
        match self {
            StoreErrorModel::MetaEmpty => "Raft meta file is empty"@,
            StoreErrorModel::MetaInvalid { reason } => reason,
            StoreErrorModel::SnapshotEmpty => "Raft snapshot file is empty"@,
            StoreErrorModel::BlankRecord { line } => "Raft log contains an empty record at line "@
                + decimal::decimal(line as int),
            StoreErrorModel::BadRecord { line, reason } => "invalid Raft log record at line "@
                + decimal::decimal(line as int) + ": "@ + reason,
            StoreErrorModel::UnsupportedFormat { v } => "unsupported Raft log format v"@
                + decimal::decimal(v as int) + " (this binary requires v1; headerless files are the v0 format)"@,
            StoreErrorModel::MetaMissing =>
                "Raft meta is missing while durable log/snapshot state exists"@,
            StoreErrorModel::VoteInTermZero => "Raft hard state contains a vote in term zero"@,
            StoreErrorModel::BaseMismatch { index, term } =>
                "Raft snapshot base index/term mismatch: index="@ + decimal::decimal(index as int)
                + ", term="@ + decimal::decimal(term as int),
            StoreErrorModel::SnapshotPresence =>
                "Raft snapshot presence does not match the non-zero snapshot base"@,
            StoreErrorModel::SnapshotTermAhead { base_term, current_term } => "Raft snapshot term "@
                + decimal::decimal(base_term as int) + " exceeds current term "@
                + decimal::decimal(current_term as int),
            StoreErrorModel::CommitBeforeBase { commit, base } => "Raft commit_index "@
                + decimal::decimal(commit as int) + " precedes snapshot base "@ + decimal::decimal(
                base as int,
            ),
            StoreErrorModel::IndexOverflow => "Raft log index overflow"@,
            StoreErrorModel::NotContiguous { expected, found } =>
                "Raft log is not contiguous: expected index "@ + decimal::decimal(expected as int)
                + ", found "@ + decimal::decimal(found as int),
            StoreErrorModel::TermZero { index } => "Raft log entry "@ + decimal::decimal(
                index as int,
            ) + " has term zero"@,
            StoreErrorModel::TermDescends { index, previous, found } =>
                "Raft log term descends at index "@ + decimal::decimal(index as int)
                + ": previous "@ + decimal::decimal(previous as int) + ", found "@
                + decimal::decimal(found as int),
            StoreErrorModel::TermAhead { term, index, current_term } => "Raft log term "@
                + decimal::decimal(term as int) + " at index "@ + decimal::decimal(index as int)
                + " exceeds current term "@ + decimal::decimal(current_term as int),
            StoreErrorModel::CommitBeyondLog { commit, last } => "Raft commit_index "@
                + decimal::decimal(commit as int) + " exceeds last recoverable index "@
                + decimal::decimal(last as int)
                + "; refusing to truncate committed entries"@,
            StoreErrorModel::InjectedFailure => "injected RaftStore save failure"@,
        }
    }
}

/// A text followed by a number.
fn numbered(text: &str, n: u64) -> (r: String)
    ensures
        r@ == text@ + decimal::decimal(n as int),
{
    let mut r = text.to_owned();
    append_number(&mut r, n);
    r
}

impl StoreError {
    /// The message of a refusal.
    pub fn message(&self) -> (r: String)
        ensures
            r@ == self.deep_view().text(),
    {
        match self {
            StoreError::MetaEmpty => "Raft meta file is empty".to_owned(),
            StoreError::MetaInvalid { reason } => reason.clone(),
            StoreError::SnapshotEmpty => "Raft snapshot file is empty".to_owned(),
            StoreError::BlankRecord { line } => numbered(
                "Raft log contains an empty record at line ",
                *line,
            ),
            StoreError::BadRecord { line, reason } => {
                let mut r = numbered("invalid Raft log record at line ", *line);
                append_text(&mut r, ": ");
                append_text(&mut r, reason.as_str());
                r
            },
            StoreError::UnsupportedFormat { v } => {
                let mut r = numbered("unsupported Raft log format v", *v);
                append_text(
                    &mut r,
                    " (this binary requires v1; headerless files are the v0 format)",
                );
                r
            },
            StoreError::MetaMissing =>
                "Raft meta is missing while durable log/snapshot state exists".to_owned(),
            StoreError::VoteInTermZero =>
                "Raft hard state contains a vote in term zero".to_owned(),
            StoreError::BaseMismatch { index, term } => {
                let mut r = numbered("Raft snapshot base index/term mismatch: index=", *index);
                append_text(&mut r, ", term=");
                append_number(&mut r, *term);
                r
            },
            StoreError::SnapshotPresence =>
                "Raft snapshot presence does not match the non-zero snapshot base".to_owned(),
            StoreError::SnapshotTermAhead { base_term, current_term } => {
                let mut r = numbered("Raft snapshot term ", *base_term);
                append_text(&mut r, " exceeds current term ");
                append_number(&mut r, *current_term);
                r
            },
            StoreError::CommitBeforeBase { commit, base } => {
                let mut r = numbered("Raft commit_index ", *commit);
                append_text(&mut r, " precedes snapshot base ");
                append_number(&mut r, *base);
                r
            },
            StoreError::IndexOverflow => "Raft log index overflow".to_owned(),
            StoreError::NotContiguous { expected, found } => {
                let mut r = numbered("Raft log is not contiguous: expected index ", *expected);
                append_text(&mut r, ", found ");
                append_number(&mut r, *found);
                r
            },
            StoreError::TermZero { index } => {
                let mut r = numbered("Raft log entry ", *index);
                append_text(&mut r, " has term zero");
                r
            },
            StoreError::TermDescends { index, previous, found } => {
                let mut r = numbered("Raft log term descends at index ", *index);
                append_text(&mut r, ": previous ");
                append_number(&mut r, *previous);
                append_text(&mut r, ", found ");
                append_number(&mut r, *found);
                r
            },
            StoreError::TermAhead { term, index, current_term } => {
                let mut r = numbered("Raft log term ", *term);
                append_text(&mut r, " at index ");
                append_number(&mut r, *index);
                append_text(&mut r, " exceeds current term ");
                append_number(&mut r, *current_term);
                r
            },
            StoreError::CommitBeyondLog { commit, last } => {
                let mut r = numbered("Raft commit_index ", *commit);
                append_text(&mut r, " exceeds last recoverable index ");
                append_number(&mut r, *last);
                append_text(&mut r, "; refusing to truncate committed entries");
                r
            },
            StoreError::InjectedFailure => "injected RaftStore save failure".to_owned(),
        }
    }
}

/// The first fault of the entries from position `i` on, if any.
pub open spec fn log_fault(p: PersistedModel, i: int) -> Option<StoreErrorModel>
    decreases p.log.len() - i,
{
    if i >= p.log.len() {
        None
    } else {
        let entry = p.log[i];
        let previous = if i == 0 {
            p.base_term
        } else {
            p.log[i - 1].term
        };
        let expected = p.base_index + 1 + i;
        if expected > u64::MAX {
            Some(StoreErrorModel::IndexOverflow)
        } else if entry.index != expected {
            Some(StoreErrorModel::NotContiguous { expected: expected as u64, found: entry.index })
        } else if entry.term == 0 {
            Some(StoreErrorModel::TermZero { index: entry.index })
        } else if entry.term < previous {
            Some(
                StoreErrorModel::TermDescends { index: entry.index, previous, found: entry.term },
            )
        } else if entry.term > p.current_term {
            Some(
                StoreErrorModel::TermAhead {
                    term: entry.term,
                    index: entry.index,
                    current_term: p.current_term,
                },
            )
        } else {
            log_fault(p, i + 1)
        }
    }
}

/// The first fault of a durable state, if any.
pub open spec fn fault(p: PersistedModel) -> Option<StoreErrorModel> {
    let last = if p.log.len() > 0 {
        p.log.last().index
    } else {
        p.base_index
    };
    if p.current_term == 0 && p.voted_for is Some {
        Some(StoreErrorModel::VoteInTermZero)
    } else if (p.base_index == 0) != (p.base_term == 0) {
        Some(StoreErrorModel::BaseMismatch { index: p.base_index, term: p.base_term })
    } else if (p.base_index > 0) != (p.snapshot is Some) {
        Some(StoreErrorModel::SnapshotPresence)
    } else if p.base_term > p.current_term {
        Some(
            StoreErrorModel::SnapshotTermAhead {
                base_term: p.base_term,
                current_term: p.current_term,
            },
        )
    } else if p.commit_index < p.base_index {
        Some(StoreErrorModel::CommitBeforeBase { commit: p.commit_index, base: p.base_index })
    } else if log_fault(p, 0) is Some {
        log_fault(p, 0)
    } else if p.commit_index > last {
        Some(StoreErrorModel::CommitBeyondLog { commit: p.commit_index, last })
    } else {
        None
    }
}

/// Rejects an inconsistent durable state. Recovery may discard an uncommitted torn tail only; it
/// must never erase evidence of an entry that the commit point covers.
pub fn validate_persisted(p: &Persisted) -> (r: Result<(), StoreError>)
    ensures
        match r {
            Ok(_) => fault(p.deep_view()) is None,
            Err(e) => fault(p.deep_view()) == Some(e.deep_view()),
        },
        r is Ok <==> store_laws::is_sound(p.deep_view()),
{
    let ghost model = p.deep_view();
    proof {
        store_laws::faultless_is_sound(model);
    }
    if p.current_term == 0 && p.voted_for.is_some() {
        return Err(StoreError::VoteInTermZero);
    }
    if (p.base_index == 0) != (p.base_term == 0) {
        return Err(StoreError::BaseMismatch { index: p.base_index, term: p.base_term });
    }
    if (p.base_index > 0) != p.snapshot.is_some() {
        return Err(StoreError::SnapshotPresence);
    }
    if p.base_term > p.current_term {
        return Err(
            StoreError::SnapshotTermAhead { base_term: p.base_term, current_term: p.current_term },
        );
    }
    if p.commit_index < p.base_index {
        return Err(StoreError::CommitBeforeBase { commit: p.commit_index, base: p.base_index });
    }
    match check_log(p) {
        Some(e) => {
            return Err(e);
        },
        None => {},
    }
    let last: u64 = if p.log.len() > 0 {
        p.log[p.log.len() - 1].index
    } else {
        p.base_index
    };
    if p.commit_index > last {
        return Err(StoreError::CommitBeyondLog { commit: p.commit_index, last });
    }
    Ok(())
}

fn check_log(p: &Persisted) -> (r: Option<StoreError>)
    ensures
        r.deep_view() == log_fault(p.deep_view(), 0),
{
    let ghost model = p.deep_view();
    let mut previous: u64 = p.base_term;
    let mut i: usize = 0;
    while i < p.log.len()
        invariant
            i <= p.log.len(),
            model == p.deep_view(),
            previous == if i == 0 {
                model.base_term
            } else {
                model.log[i - 1].term
            },
            log_fault(model, 0) == log_fault(model, i as int),
        decreases p.log.len() - i,
    {
        let entry = &p.log[i];
        assert(model.log[i as int] == entry.deep_view());
        let expected: u64 = match p.base_index.checked_add(1) {
            Some(first) => match first.checked_add(i as u64) {
                Some(e) => e,
                None => {
                    return Some(StoreError::IndexOverflow);
                },
            },
            None => {
                return Some(StoreError::IndexOverflow);
            },
        };
        if entry.index != expected {
            return Some(StoreError::NotContiguous { expected, found: entry.index });
        }
        if entry.term == 0 {
            return Some(StoreError::TermZero { index: entry.index });
        }
        if entry.term < previous {
            return Some(
                StoreError::TermDescends { index: entry.index, previous, found: entry.term },
            );
        }
        if entry.term > p.current_term {
            return Some(
                StoreError::TermAhead {
                    term: entry.term,
                    index: entry.index,
                    current_term: p.current_term,
                },
            );
        }
        previous = entry.term;
        i += 1;
    }
    None
}

proof fn sound_log(p: PersistedModel, i: int)
    requires
        0 <= i <= p.log.len(),
        log_fault(p, i) is None,
    ensures
        forall|k: int|
            i <= k < p.log.len() ==> (#[trigger] p.log[k]).index == p.base_index + 1 + k
                && p.log[k].index <= u64::MAX && 0 < p.log[k].term <= p.current_term,
        forall|k: int|
            i <= k < p.log.len() && k > 0 ==> p.log[k - 1].term <= (#[trigger] p.log[k]).term,
        i == 0 && p.log.len() > 0 ==> p.base_term <= p.log[0].term,
    decreases p.log.len() - i,
{
    if i < p.log.len() {
        sound_log(p, i + 1);
    }
}

/// A state without fault is one the engine can start from, and its terms never descend nor run
/// ahead of the current one.
pub proof fn faultless_state_is_valid(p: PersistedModel)
    requires
        fault(p) is None,
        p.log.len() <= u64::MAX,
    ensures
        p.valid(),
        forall|k: int| 0 <= k < p.log.len() ==> 0 < (#[trigger] p.log[k]).term <= p.current_term,
        forall|k: int|
            0 < k < p.log.len() ==> p.log[k - 1].term <= (#[trigger] p.log[k]).term,
{
    sound_log(p, 0);
    if p.log.len() > 0 {
        assert(p.log[p.log.len() - 1].index == p.base_index + p.log.len());
    }
}

/// What the lines of a log file hold, or the first fault: a header in front, if there is one, and
/// the entries up to a torn tail.
pub open spec fn lines_read(
    lines: Seq<LineReadModel>,
    terminated: bool,
    i: int,
    header: Option<LogHeader>,
    log: Seq<EntryModel>,
) -> Result<(Option<LogHeader>, Seq<EntryModel>), StoreErrorModel>
    decreases lines.len() - i,
{
    if i >= lines.len() {
        Ok((header, log))
    } else {
        let last = i == lines.len() - 1;
        match lines[i] {
            LineReadModel::Blank => if last && (terminated || lines.len() == 1) {
                Ok((header, log))
            } else {
                Err(StoreErrorModel::BlankRecord { line: (i + 1) as u64 })
            },
            LineReadModel::Record { header: h, entry } => if i == 0 && h is Some {
                lines_read(lines, terminated, i + 1, h, log)
            } else {
                match entry {
                    Ok(e) => lines_read(lines, terminated, i + 1, header, log.push(e)),
                    Err(why) => if last && !terminated {
                        Ok((header, log))
                    } else {
                        Err(StoreErrorModel::BadRecord { line: (i + 1) as u64, reason: why })
                    },
                }
            },
        }
    }
}

/// The hard state that was read, or that of a fresh member.
pub open spec fn meta_or_fresh(meta: MetaReadModel) -> MetaModel {
    match meta {
        MetaReadModel::Read(m) => m,
        _ => MetaModel {
            current_term: 0,
            voted_for: None,
            commit_index: 0,
            base_index: 0,
            base_term: 0,
        },
    }
}

/// The snapshot that was read, if any.
pub open spec fn snapshot_found(snapshot: SnapshotReadModel) -> Option<Seq<u8>> {
    match snapshot {
        SnapshotReadModel::Read(b) => Some(b),
        _ => None,
    }
}

/// The state that the files stand for once each of them could be read: the base is the one in the
/// log's header where there is one, and the commit point is at least the base, since a snapshot
/// only ever holds committed state.
pub open spec fn assembled(
    meta: MetaReadModel,
    snapshot: SnapshotReadModel,
    header: Option<LogHeader>,
    log: Seq<EntryModel>,
) -> PersistedModel {
    let m = meta_or_fresh(meta);
    let (base_index, base_term) = match header {
        Some(h) => (h.base_index, h.base_term),
        None => (m.base_index, m.base_term),
    };
    PersistedModel {
        current_term: m.current_term,
        voted_for: m.voted_for,
        commit_index: if m.commit_index >= base_index {
            m.commit_index
        } else {
            base_index
        },
        log,
        base_index,
        base_term,
        snapshot: snapshot_found(snapshot),
    }
}

/// The state that the files of a member stand for, or why they cannot be believed.
pub open spec fn recovered(
    meta: MetaReadModel,
    snapshot: SnapshotReadModel,
    lines: Seq<LineReadModel>,
    terminated: bool,
) -> Result<PersistedModel, StoreErrorModel> {
    if meta is Empty {
        Err(StoreErrorModel::MetaEmpty)
    } else if meta is Invalid {
        Err(StoreErrorModel::MetaInvalid { reason: meta->Invalid_0 })
    } else if snapshot is Empty {
        Err(StoreErrorModel::SnapshotEmpty)
    } else {
        match lines_read(lines, terminated, 0, None, Seq::empty()) {
            Err(e) => Err(e),
            Ok((header, log)) => {
                let p = assembled(meta, snapshot, header, log);
                if header is Some && header->0.v != LOG_FORMAT_VERSION {
                    Err(StoreErrorModel::UnsupportedFormat { v: header->0.v })
                } else if meta is Missing && (p.base_index > 0 || log.len() > 0
                    || p.snapshot is Some) {
                    Err(StoreErrorModel::MetaMissing)
                } else if fault(p) is Some {
                    Err(fault(p)->0)
                } else {
                    Ok(p)
                }
            },
        }
    }
}

/// One write of a save.
#[derive(Debug)]
pub enum SaveStep {
    Snapshot(Vec<u8>),
    Log { base_index: u64, base_term: u64, entries: Vec<LogEntry> },
    Meta(Meta),
}

/// The value of a [`SaveStep`].
pub enum SaveStepModel {
    Snapshot(Seq<u8>),
    Log { base_index: u64, base_term: u64, entries: Seq<EntryModel> },
    Meta(MetaModel),
}

impl DeepView for SaveStep {
    type V = SaveStepModel;

    open spec fn deep_view(&self) -> SaveStepModel {
        match self {
            SaveStep::Snapshot(b) => SaveStepModel::Snapshot(b.deep_view()),
            SaveStep::Log { base_index, base_term, entries } => SaveStepModel::Log {
                base_index: *base_index,
                base_term: *base_term,
                entries: entries.deep_view(),
            },
            SaveStep::Meta(m) => SaveStepModel::Meta(m.deep_view()),
        }
    }
}

/// The hard state of a durable state.
pub open spec fn meta_of(p: PersistedModel) -> MetaModel {
    MetaModel {
        current_term: p.current_term,
        voted_for: p.voted_for,
        commit_index: p.commit_index,
        base_index: p.base_index,
        base_term: p.base_term,
    }
}

/// The writes of a save, in order: the snapshot, then the log, then the hard state, so that no
/// file refers to what is not on disk yet.
pub open spec fn save_steps(p: PersistedModel) -> Seq<SaveStepModel> {
    let tail = seq![
        SaveStepModel::Log { base_index: p.base_index, base_term: p.base_term, entries: p.log },
        SaveStepModel::Meta(meta_of(p)),
    ];
    match p.snapshot {
        Some(b) => seq![SaveStepModel::Snapshot(b)] + tail,
        None => tail,
    }
}

/// The durable home of a member.
pub struct RaftStore {
    fail_saves: bool,
}

impl RaftStore {
    /// Whether saves are made to fail.
    pub closed spec fn failing(&self) -> bool {
        self.fail_saves
    }

    /// Opens a store from what its files hold, and recovers the durable state (that of a fresh
    /// member where no file exists). A torn last record is dropped.
    pub fn open(
        meta: MetaRead,
        snapshot: SnapshotRead,
        lines: Vec<LineRead>,
        terminated: bool,
    ) -> (r: Result<(Self, Persisted), StoreError>)
        ensures
            match r {
                Ok((store, p)) => !store.failing() && recovered(
                    meta.deep_view(),
                    snapshot.deep_view(),
                    lines.deep_view(),
                    terminated,
                ) == Ok::<PersistedModel, StoreErrorModel>(p.deep_view()) && p.deep_view().valid(),
                Err(e) => recovered(
                    meta.deep_view(),
                    snapshot.deep_view(),
                    lines.deep_view(),
                    terminated,
                ) == Err::<PersistedModel, StoreErrorModel>(e.deep_view()),
            },
    {
        let ghost mm = meta.deep_view();
        let ghost sm = snapshot.deep_view();
        let (m, missing): (Meta, bool) = match meta {
            MetaRead::Missing => (
                Meta {
                    current_term: 0,
                    voted_for: None,
                    commit_index: 0,
                    base_index: 0,
                    base_term: 0,
                },
                true,
            ),
            MetaRead::Empty => {
                return Err(StoreError::MetaEmpty);
            },
            MetaRead::Invalid(reason) => {
                return Err(StoreError::MetaInvalid { reason });
            },
            MetaRead::Read(m) => (m, false),
        };
        let bytes: Option<Vec<u8>> = match snapshot {
            SnapshotRead::Missing => None,
            SnapshotRead::Empty => {
                return Err(StoreError::SnapshotEmpty);
            },
            SnapshotRead::Read(b) => Some(b),
        };
        let (header, log) = match read_lines(lines, terminated) {
            Ok(found) => found,
            Err(e) => {
                return Err(e);
            },
        };
        if let Some(h) = header {
            if h.v != LOG_FORMAT_VERSION {
                return Err(StoreError::UnsupportedFormat { v: h.v });
            }
        }
        let (base_index, base_term): (u64, u64) = match header {
            Some(h) => (h.base_index, h.base_term),
            None => (m.base_index, m.base_term),
        };
        if missing && (base_index > 0 || log.len() > 0 || bytes.is_some()) {
            return Err(StoreError::MetaMissing);
        }
        let commit_index: u64 = if m.commit_index >= base_index {
            m.commit_index
        } else {
            base_index
        };
        let restored = Persisted {
            current_term: m.current_term,
            voted_for: m.voted_for,
            commit_index,
            log,
            base_index,
            base_term,
            snapshot: bytes,
        };
        assert(restored.deep_view() =~= assembled(mm, sm, header, log.deep_view()));
        match validate_persisted(&restored) {
            Ok(_) => {},
            Err(e) => {
                return Err(e);
            },
        }
        proof {
            assert(restored.log.len() <= usize::MAX);
            faultless_state_is_valid(restored.deep_view());
        }
        Ok((RaftStore { fail_saves: false }, restored))
    }

    /// The writes that save a durable state, in the order in which they must reach the disk. A
    /// state that recovery would reject is not saved.
    pub fn save(&self, p: &Persisted) -> (r: Result<Vec<SaveStep>, StoreError>)
        ensures
            match r {
                Ok(steps) => !self.failing() && fault(p.deep_view()) is None && steps.deep_view()
                    == save_steps(p.deep_view()),
                Err(e) => if self.failing() {
                    e is InjectedFailure
                } else {
                    fault(p.deep_view()) == Some(e.deep_view())
                },
            },
    {
        if self.fail_saves {
            return Err(StoreError::InjectedFailure);
        }
        match validate_persisted(p) {
            Ok(_) => {},
            Err(e) => {
                return Err(e);
            },
        }
        let copy = p.clone();
        let meta = Meta {
            current_term: p.current_term,
            voted_for: copy_text_opt(&p.voted_for),
            commit_index: p.commit_index,
            base_index: p.base_index,
            base_term: p.base_term,
        };
        let mut steps: Vec<SaveStep> = Vec::new();
        if let Some(bytes) = copy.snapshot {
            steps.push(SaveStep::Snapshot(bytes));
        }
        steps.push(
            SaveStep::Log { base_index: p.base_index, base_term: p.base_term, entries: copy.log },
        );
        steps.push(SaveStep::Meta(meta));
        assert(steps.deep_view() =~= save_steps(p.deep_view()));
        Ok(steps)
    }

    /// Makes every later save fail.
    pub fn fail_saves_for_test(&mut self)
        ensures
            final(self).failing(),
    {
        self.fail_saves = true;
    }
}

fn read_lines(lines: Vec<LineRead>, terminated: bool) -> (r: Result<
    (Option<LogHeader>, Vec<LogEntry>),
    StoreError,
>)
    ensures
        match r {
            Ok((h, log)) => lines_read(lines.deep_view(), terminated, 0, None, Seq::empty()) == Ok::<
                (Option<LogHeader>, Seq<EntryModel>),
                StoreErrorModel,
            >((h, log.deep_view())),
            Err(e) => lines_read(lines.deep_view(), terminated, 0, None, Seq::empty()) == Err::<
                (Option<LogHeader>, Seq<EntryModel>),
                StoreErrorModel,
            >(e.deep_view()),
        },
{
    let ghost model = lines.deep_view();
    let ghost result = lines_read(model, terminated, 0, None, Seq::empty());
    let mut header: Option<LogHeader> = None;
    let mut log: Vec<LogEntry> = Vec::new();
    let mut i: usize = 0;
    assert(log.deep_view() =~= Seq::<EntryModel>::empty());
    while i < lines.len()
        invariant
            i <= lines.len(),
            model == lines.deep_view(),
            result == lines_read(model, terminated, 0, None, Seq::empty()),
            result == lines_read(model, terminated, i as int, header, log.deep_view()),
        decreases lines.len() - i,
    {
        let last: bool = i == lines.len() - 1;
        assert(model[i as int] == lines@[i as int].deep_view());
        match &lines[i] {
            LineRead::Blank => {
                if last && (terminated || lines.len() == 1) {
                    return Ok((header, log));
                }
                return Err(StoreError::BlankRecord { line: i as u64 + 1 });
            },
            LineRead::Record { header: h, entry } => {
                if i == 0 && h.is_some() {
                    header = *h;
                } else {
                    match entry {
                        Ok(e) => {
                            let ghost was = log.deep_view();
                            let c = e.clone();
                            let ghost cm = c.deep_view();
                            log.push(c);
                            assert(log.deep_view() =~= was.push(cm));
                        },
                        Err(why) => {
                            if last && !terminated {
                                return Ok((header, log));
                            }
                            return Err(
                                StoreError::BadRecord { line: i as u64 + 1, reason: why.clone() },
                            );
                        },
                    }
                }
            },
        }
        i += 1;
    }
    Ok((header, log))
}

/// The byte that ends a line.
pub const LINE_END: u8 = 10;

/// The lines of a file; the last one is what follows the last line end.
pub open spec fn split_at_ends(bytes: Seq<u8>) -> Seq<Seq<u8>>
    decreases bytes.len(),
{
    if bytes.len() == 0 {
        seq![Seq::empty()]
    } else {
        let before = split_at_ends(bytes.drop_last());
        if bytes.last() == LINE_END {
            before.push(Seq::empty())
        } else {
            before.update(before.len() - 1, before.last().push(bytes.last()))
        }
    }
}

/// The bytes of a file with the given lines, each ended.
pub open spec fn ended_lines(lines: Seq<Seq<u8>>) -> Seq<u8>
    decreases lines.len(),
{
    if lines.len() == 0 {
        Seq::empty()
    } else {
        (ended_lines(lines.drop_last()) + lines.last()).push(LINE_END)
    }
}

/// Whether a file ends with a line end: then its last record is complete.
pub open spec fn is_terminated(bytes: Seq<u8>) -> bool {
    bytes.len() > 0 && bytes.last() == LINE_END
}

/// Splits a log file into its lines, and says whether the last one is complete.
pub fn split_log(bytes: &[u8]) -> (r: (Vec<Vec<u8>>, bool))
    ensures
        r.0.deep_view() == split_at_ends(bytes@),
        r.1 == is_terminated(bytes@),
{
    let mut lines: Vec<Vec<u8>> = Vec::new();
    let mut line: Vec<u8> = Vec::new();
    let mut i: usize = 0;
    assert(lines.deep_view().push(line@) =~= split_at_ends(bytes@.take(0)));
    while i < bytes.len()
        invariant
            i <= bytes.len(),
            lines.deep_view().push(line@) == split_at_ends(bytes@.take(i as int)),
        decreases bytes.len() - i,
    {
        assert(bytes@.take(i + 1).drop_last() =~= bytes@.take(i as int));
        let ghost ls = lines.deep_view();
        let ghost l = line@;
        let ghost before = split_at_ends(bytes@.take(i as int));
        if bytes[i] == LINE_END {
            let mut full: Vec<u8> = Vec::new();
            std::mem::swap(&mut full, &mut line);
            lines.push(full);
            assert(full.deep_view() =~= l);
            assert(lines.deep_view() =~= ls.push(l));
            assert(line@ =~= Seq::<u8>::empty());
            assert(lines.deep_view().push(line@) =~= before.push(Seq::empty()));
        } else {
            line.push(bytes[i]);
            assert(lines.deep_view().push(line@) =~= before.update(
                before.len() - 1,
                before.last().push(bytes@[i as int]),
            ));
        }
        i += 1;
    }
    assert(bytes@.take(bytes@.len() as int) =~= bytes@);
    let ghost ls = lines.deep_view();
    let ghost l = line@;
    lines.push(line);
    assert(line.deep_view() =~= l);
    assert(lines.deep_view() =~= ls.push(l));
    (lines, bytes.len() > 0 && bytes[bytes.len() - 1] == LINE_END)
}

/// The bytes of a log file: the header line and the entry lines, each ended.
pub fn frame_log(header: &Vec<u8>, entries: &Vec<Vec<u8>>) -> (r: Vec<u8>)
    ensures
        r@ == ended_lines(seq![header@] + entries.deep_view()),
{
    let ghost all = seq![header@] + entries.deep_view();
    let mut r: Vec<u8> = Vec::new();
    append_line(&mut r, header);
    assert(all.take(1).drop_last() =~= Seq::<Seq<u8>>::empty());
    assert(all.take(1).last() == header@);
    assert(ended_lines(Seq::<Seq<u8>>::empty()) =~= Seq::<u8>::empty());
    assert(r@ =~= ended_lines(all.take(1)));
    let mut i: usize = 0;
    while i < entries.len()
        invariant
            i <= entries.len(),
            all == seq![header@] + entries.deep_view(),
            r@ == ended_lines(all.take(i + 1)),
        decreases entries.len() - i,
    {
        append_line(&mut r, &entries[i]);
        assert(all.take(i + 2).drop_last() =~= all.take(i + 1));
        assert(entries@[i as int].deep_view() =~= entries@[i as int]@);
        assert(all.take(i + 2).last() == entries@[i as int]@);
        i += 1;
    }
    assert(all.take(all.len() as int) =~= all);
    r
}

fn append_line(buf: &mut Vec<u8>, line: &Vec<u8>)
    ensures
        final(buf)@ == (old(buf)@ + line@).push(LINE_END),
{
    let ghost before = buf@;
    let mut i: usize = 0;
    assert(before + line@.take(0) =~= before);
    while i < line.len()
        invariant
            i <= line.len(),
            buf@ == before + line@.take(i as int),
        decreases line.len() - i,
    {
        buf.push(line[i]);
        i += 1;
        assert(before + line@.take(i as int) =~= (before + line@.take(i - 1)).push(line@[i - 1]));
    }
    assert(line@.take(line@.len() as int) =~= line@);
    buf.push(LINE_END);
}

proof fn split_has_a_line(bytes: Seq<u8>)
    ensures
        split_at_ends(bytes).len() > 0,
    decreases bytes.len(),
{
    if bytes.len() > 0 {
        split_has_a_line(bytes.drop_last());
    }
}

proof fn split_of_extended(bytes: Seq<u8>, line: Seq<u8>)
    requires
        !line.contains(LINE_END),
    ensures
        split_at_ends(bytes + line) == split_at_ends(bytes).update(
            split_at_ends(bytes).len() - 1,
            split_at_ends(bytes).last() + line,
        ),
    decreases line.len(),
{
    let s = split_at_ends(bytes);
    split_has_a_line(bytes);
    if line.len() == 0 {
        assert(bytes + line =~= bytes);
        assert(s.update(s.len() - 1, s.last() + line) =~= s) by {
            assert(s.last() + line =~= s.last());
        }
    } else {
        let rest = line.drop_last();
        assert(!rest.contains(LINE_END)) by {
            if rest.contains(LINE_END) {
                let i = choose|i: int| 0 <= i < rest.len() && rest[i] == LINE_END;
                assert(line[i] == LINE_END);
            }
        }
        split_of_extended(bytes, rest);
        assert((bytes + line).drop_last() =~= bytes + rest);
        assert(line[line.len() - 1] != LINE_END) by {
            assert(line.contains(line[line.len() - 1]));
        }
        let before = split_at_ends(bytes + rest);
        assert(before.last().push(line.last()) =~= s.last() + line);
        assert(before.update(before.len() - 1, before.last().push(line.last())) =~= s.update(
            s.len() - 1,
            s.last() + line,
        ));
    }
}

/// Splitting what was framed gives the lines back, with nothing behind the last line end.
pub proof fn framing_round_trip(lines: Seq<Seq<u8>>)
    requires
        forall|i: int| 0 <= i < lines.len() ==> !(#[trigger] lines[i]).contains(LINE_END),
    ensures
        split_at_ends(ended_lines(lines)) == lines.push(Seq::empty()),
        lines.len() > 0 ==> is_terminated(ended_lines(lines)),
    decreases lines.len(),
{
    if lines.len() == 0 {
        assert(split_at_ends(ended_lines(lines)) =~= lines.push(Seq::empty()));
    } else {
        let rest = lines.drop_last();
        assert forall|i: int| 0 <= i < rest.len() implies !(#[trigger] rest[i]).contains(
            LINE_END,
        ) by {
            assert(rest[i] == lines[i]);
        }
        framing_round_trip(rest);
        let bytes = ended_lines(rest);
        assert(!lines[lines.len() - 1].contains(LINE_END));
        split_of_extended(bytes, lines.last());
        let whole = ended_lines(lines);
        assert(whole.drop_last() =~= bytes + lines.last());
        let s = split_at_ends(bytes + lines.last());
        assert(s.last() =~= lines.last());
        assert(s =~= lines);
        assert(split_at_ends(whole) == s.push(Seq::empty()));
    }
}

/// The header line of a saved log.
pub open spec fn saved_header(p: PersistedModel) -> LogHeader {
    LogHeader { v: LOG_FORMAT_VERSION, base_index: p.base_index, base_term: p.base_term }
}

/// Whether lines are what a saved log reads back as: a header, the entries, and nothing behind the
/// last line end. What the header line reads as besides a header is not told, nor what an entry
/// line reads as besides an entry.
pub open spec fn reads_back(lines: Seq<LineReadModel>, p: PersistedModel) -> bool {
    &&& lines.len() == p.log.len() + 2
    &&& lines[0] matches LineReadModel::Record { header, .. } && header == Some(saved_header(p))
    &&& forall|i: int|
        0 < i <= p.log.len() ==> ((#[trigger] lines[i]) matches LineReadModel::Record { entry, .. }
            && entry == Ok::<EntryModel, Seq<char>>(p.log[i - 1]))
    &&& lines.last() is Blank
}

proof fn saved_lines_read(p: PersistedModel, lines: Seq<LineReadModel>, i: int)
    requires
        0 <= i <= p.log.len(),
        reads_back(lines, p),
    ensures
        lines_read(lines, true, i + 1, Some(saved_header(p)), p.log.take(i)) == Ok::<
            (Option<LogHeader>, Seq<EntryModel>),
            StoreErrorModel,
        >((Some(saved_header(p)), p.log)),
    decreases p.log.len() - i,
{
    if i == p.log.len() {
        assert(p.log.take(i) =~= p.log);
        assert(lines[i + 1] == lines.last());
    } else {
        saved_lines_read(p, lines, i + 1);
        assert(lines[i + 1] is Record);
        assert(p.log.take(i).push(p.log[i]) =~= p.log.take(i + 1));
    }
}

proof fn saved_log_read(p: PersistedModel, lines: Seq<LineReadModel>)
    requires
        reads_back(lines, p),
    ensures
        lines_read(lines, true, 0, None, Seq::empty()) == Ok::<
            (Option<LogHeader>, Seq<EntryModel>),
            StoreErrorModel,
        >((Some(saved_header(p)), p.log)),
{
    saved_lines_read(p, lines, 0);
    assert(p.log.take(0) =~= Seq::<EntryModel>::empty());
    assert(lines_read(lines, true, 0, None, Seq::empty()) == lines_read(
        lines,
        true,
        1,
        Some(saved_header(p)),
        Seq::empty(),
    ));
}

/// What was saved is recovered: after all writes of a save, recovery gives the saved state back.
pub proof fn save_then_open(p: PersistedModel, lines: Seq<LineReadModel>)
    requires
        fault(p) is None,
        p.snapshot matches Some(bytes) ==> bytes.len() > 0,
        reads_back(lines, p),
    ensures
        recovered(MetaReadModel::Read(meta_of(p)), snapshot_read(p.snapshot), lines, true) == Ok::<
            PersistedModel,
            StoreErrorModel,
        >(p),
{
    saved_log_read(p, lines);
    assert(assembled(
        MetaReadModel::Read(meta_of(p)),
        snapshot_read(p.snapshot),
        Some(saved_header(p)),
        p.log,
    ) =~= p);
}

/// A crash between the log and the hard state of a save loses nothing of a compaction: the base
/// comes from the log's own header, and the commit point is at least the base.
pub proof fn crash_before_meta_recovers(
    old: PersistedModel,
    new: PersistedModel,
    lines: Seq<LineReadModel>,
)
    requires
        fault(old) is None,
        fault(new) is None,
        new.current_term == old.current_term,
        new.voted_for == old.voted_for,
        new.commit_index == if old.commit_index >= new.base_index {
            old.commit_index
        } else {
            new.base_index
        },
        new.snapshot matches Some(bytes) ==> bytes.len() > 0,
        reads_back(lines, new),
    ensures
        recovered(MetaReadModel::Read(meta_of(old)), snapshot_read(new.snapshot), lines, true) == Ok::<
            PersistedModel,
            StoreErrorModel,
        >(new),
{
    saved_log_read(new, lines);
    assert(assembled(
        MetaReadModel::Read(meta_of(old)),
        snapshot_read(new.snapshot),
        Some(saved_header(new)),
        new.log,
    ) =~= new);
}

/// How the parts of the files are put into bytes, and what bytes are read as.
pub struct Codec {
    pub meta: spec_fn(MetaModel) -> Seq<u8>,
    pub header: spec_fn(LogHeader) -> Seq<u8>,
    pub entry: spec_fn(EntryModel) -> Seq<u8>,
    pub as_meta: spec_fn(Seq<u8>) -> Result<MetaModel, Seq<char>>,
    pub as_header: spec_fn(Seq<u8>) -> Option<LogHeader>,
    pub as_entry: spec_fn(Seq<u8>) -> Result<EntryModel, Seq<char>>,
}

/// Whether bytes can stand on a line: there are some, and no line end is among them.
pub open spec fn fits_a_line(bytes: Seq<u8>) -> bool {
    bytes.len() > 0 && !bytes.contains(LINE_END)
}

impl Codec {
    /// Whether everything that is written is read back as it was, and each record fits a line.
    pub open spec fn faithful(self) -> bool {
        &&& forall|m: MetaModel|
            (#[trigger] (self.meta)(m)).len() > 0 && (self.as_meta)((self.meta)(m)) == Ok::<
                MetaModel,
                Seq<char>,
            >(m)
        &&& forall|h: LogHeader|
            fits_a_line(#[trigger] (self.header)(h)) && (self.as_header)((self.header)(h)) == Some(
                h,
            )
        &&& forall|e: EntryModel|
            fits_a_line(#[trigger] (self.entry)(e)) && (self.as_entry)((self.entry)(e)) == Ok::<
                EntryModel,
                Seq<char>,
            >(e)
    }

    /// The lines of a log file.
    pub open spec fn log_lines(self, header: LogHeader, entries: Seq<EntryModel>) -> Seq<Seq<u8>> {
        seq![(self.header)(header)] + entries.map_values(|e: EntryModel| (self.entry)(e))
    }

    /// What the lines of a log file are read as.
    pub open spec fn read_lines(self, lines: Seq<Seq<u8>>) -> Seq<LineReadModel> {
        lines.map_values(
            |line: Seq<u8>| line_read(line, (self.as_header)(line), (self.as_entry)(line)),
        )
    }
}

/// The files of a member: the bytes of each that is there.
#[verifier::ext_equal]
pub struct Disk {
    pub meta: Option<Seq<u8>>,
    pub log: Option<Seq<u8>>,
    pub snapshot: Option<Seq<u8>>,
}

impl Disk {
    /// No file is there.
    pub open spec fn blank() -> Disk {
        Disk { meta: None, log: None, snapshot: None }
    }

    /// The files after one write.
    pub open spec fn written(self, step: SaveStepModel, codec: Codec) -> Disk {
        match step {
            SaveStepModel::Snapshot(bytes) => Disk { snapshot: Some(bytes), ..self },
            SaveStepModel::Log { base_index, base_term, entries } => Disk {
                log: Some(
                    ended_lines(
                        codec.log_lines(
                            LogHeader { v: LOG_FORMAT_VERSION, base_index, base_term },
                            entries,
                        ),
                    ),
                ),
                ..self
            },
            SaveStepModel::Meta(meta) => Disk { meta: Some((codec.meta)(meta)), ..self },
        }
    }

    /// The files after some writes, one after the other.
    pub open spec fn written_all(self, steps: Seq<SaveStepModel>, codec: Codec) -> Disk
        decreases steps.len(),
    {
        if steps.len() == 0 {
            self
        } else {
            self.written_all(steps.drop_last(), codec).written(steps.last(), codec)
        }
    }

    /// What opening the files gives.
    pub open spec fn opened(self, codec: Codec) -> Result<PersistedModel, StoreErrorModel> {
        let log = match self.log {
            Some(bytes) => bytes,
            None => Seq::empty(),
        };
        recovered(
            meta_read(
                self.meta,
                match self.meta {
                    Some(bytes) => (codec.as_meta)(bytes),
                    None => Err(Seq::empty()),
                },
            ),
            snapshot_read(self.snapshot),
            codec.read_lines(split_at_ends(log)),
            is_terminated(log),
        )
    }
}

proof fn written_log_reads_back(p: PersistedModel, codec: Codec)
    requires
        codec.faithful(),
    ensures
        ({
            let log = ended_lines(codec.log_lines(saved_header(p), p.log));
            &&& reads_back(codec.read_lines(split_at_ends(log)), p)
            &&& is_terminated(log)
        }),
{
    let lines = codec.log_lines(saved_header(p), p.log);
    assert forall|i: int| 0 <= i < lines.len() implies fits_a_line(#[trigger] lines[i]) by {
        if i == 0 {
            assert(lines[i] == (codec.header)(saved_header(p)));
        } else {
            assert(lines[i] == (codec.entry)(p.log[i - 1]));
        }
    }
    framing_round_trip(lines);
    let read = codec.read_lines(lines.push(Seq::empty()));
    assert(lines[0] == (codec.header)(saved_header(p)));
    assert forall|i: int| 0 < i <= p.log.len() implies ((
    #[trigger] read[i]) matches LineReadModel::Record { entry, .. } && entry == Ok::<
        EntryModel,
        Seq<char>,
    >(p.log[i - 1])) by {
        assert(lines[i] == (codec.entry)(p.log[i - 1]));
        assert(fits_a_line(lines[i]));
    }
    assert(fits_a_line(lines[0]));
}

proof fn written_by_save(disk: Disk, p: PersistedModel, codec: Codec)
    ensures
        ({
            let log = Some(ended_lines(codec.log_lines(saved_header(p), p.log)));
            let snapshot = match p.snapshot {
                Some(bytes) => Some(bytes),
                None => disk.snapshot,
            };
            let steps = save_steps(p);
            &&& disk.written_all(steps.drop_last(), codec) == (Disk { log, snapshot, ..disk })
            &&& disk.written_all(steps, codec) == (Disk {
                meta: Some((codec.meta)(meta_of(p))),
                log,
                snapshot,
            })
        }),
{
    let steps = save_steps(p);
    let most = steps.drop_last();
    let few = most.drop_last();
    assert(most.last() == (SaveStepModel::Log {
        base_index: p.base_index,
        base_term: p.base_term,
        entries: p.log,
    }));
    assert(steps.last() == SaveStepModel::Meta(meta_of(p)));
    if p.snapshot is Some {
        assert(few.drop_last() =~= Seq::<SaveStepModel>::empty());
        assert(few.last() == SaveStepModel::Snapshot(p.snapshot->0));
        assert(disk.written_all(few.drop_last(), codec) == disk);
    } else {
        assert(few =~= Seq::<SaveStepModel>::empty());
    }
    assert(disk.written_all(most, codec) == disk.written_all(few, codec).written(
        most.last(),
        codec,
    ));
}

/// Opening the files after a save gives the saved state back, in every field, whatever stood there
/// before, as long as what is written is read back as it was. A save does not remove a snapshot
/// file, so a state without a snapshot needs that there is none.
pub proof fn save_then_reopen(disk: Disk, p: PersistedModel, codec: Codec)
    requires
        codec.faithful(),
        fault(p) is None,
        p.snapshot matches Some(bytes) ==> bytes.len() > 0,
        p.snapshot is None ==> disk.snapshot is None,
    ensures
        disk.written_all(save_steps(p), codec).opened(codec) == Ok::<
            PersistedModel,
            StoreErrorModel,
        >(p),
{
    written_by_save(disk, p, codec);
    written_log_reads_back(p, codec);
    let log = ended_lines(codec.log_lines(saved_header(p), p.log));
    save_then_open(p, codec.read_lines(split_at_ends(log)));
}

/// A crash before the last write of a save, that of the hard state, loses nothing of a compaction:
/// opening the files gives the new state.
pub proof fn crash_then_reopen(
    disk: Disk,
    old: PersistedModel,
    new: PersistedModel,
    codec: Codec,
)
    requires
        codec.faithful(),
        fault(old) is None,
        fault(new) is None,
        new.current_term == old.current_term,
        new.voted_for == old.voted_for,
        new.commit_index == if old.commit_index >= new.base_index {
            old.commit_index
        } else {
            new.base_index
        },
        new.snapshot matches Some(bytes) ==> bytes.len() > 0,
        new.snapshot is None ==> old.snapshot is None && disk.snapshot is None,
    ensures
        disk.written_all(save_steps(old), codec).written_all(
            save_steps(new).drop_last(),
            codec,
        ).opened(codec) == Ok::<PersistedModel, StoreErrorModel>(new),
{
    written_by_save(disk, old, codec);
    written_by_save(disk.written_all(save_steps(old), codec), new, codec);
    written_log_reads_back(new, codec);
    let log = ended_lines(codec.log_lines(saved_header(new), new.log));
    crash_before_meta_recovers(old, new, codec.read_lines(split_at_ends(log)));
}

/// Opening blank files gives the state of a fresh member.
pub proof fn blank_files_open_fresh(codec: Codec)
    ensures
        Disk::blank().opened(codec) == Ok::<PersistedModel, StoreErrorModel>(
            PersistedModel {
                current_term: 0,
                voted_for: None,
                commit_index: 0,
                log: Seq::empty(),
                base_index: 0,
                base_term: 0,
                snapshot: None,
            },
        ),
{
    let none = Seq::<u8>::empty();
    let lines = codec.read_lines(split_at_ends(none));
    assert(lines.len() == 1);
    assert(lines[0] == LineReadModel::Blank);
    reveal_with_fuel(lines_read, 2);
}

proof fn torn_tail_read(
    lines: Seq<LineReadModel>,
    why: Seq<char>,
    i: int,
    header: Option<LogHeader>,
    log: Seq<EntryModel>,
)
    requires
        0 <= i <= lines.len(),
        forall|k: int| i <= k < lines.len() ==> #[trigger] lines[k] is Record,
        forall|k: int|
            i <= k < lines.len() ==> (#[trigger] lines[k])->header is Some || lines[k]->entry is Ok,
        forall|k: int| 0 < k < lines.len() ==> (#[trigger] lines[k])->entry is Ok,
    ensures
        lines_read(
            lines.push(LineReadModel::Record { header: None, entry: Err(why) }),
            false,
            i,
            header,
            log,
        ) == lines_read(lines.push(LineReadModel::Blank), true, i, header, log),
    decreases lines.len() - i,
{
    let torn = lines.push(LineReadModel::Record { header: None, entry: Err(why) });
    let clean = lines.push(LineReadModel::Blank);
    if i < lines.len() {
        assert(torn[i] == lines[i]);
        assert(clean[i] == lines[i]);
        if i == 0 && lines[i]->header is Some {
            torn_tail_read(lines, why, i + 1, lines[i]->header, log);
        } else {
            torn_tail_read(lines, why, i + 1, header, log.push(lines[i]->entry->Ok_0));
        }
    } else {
        assert(torn[i] == (LineReadModel::Record { header: None, entry: Err(why) }));
        assert(clean[i] == LineReadModel::Blank);
    }
}

/// A torn last record is dropped: recovery gives what it gives for the complete lines before it.
pub proof fn torn_tail_is_dropped(
    meta: MetaReadModel,
    snapshot: SnapshotReadModel,
    lines: Seq<LineReadModel>,
    why: Seq<char>,
)
    requires
        forall|k: int| 0 <= k < lines.len() ==> #[trigger] lines[k] is Record,
        forall|k: int|
            0 <= k < lines.len() ==> (#[trigger] lines[k])->header is Some || lines[k]->entry is Ok,
        forall|k: int| 0 < k < lines.len() ==> (#[trigger] lines[k])->entry is Ok,
    ensures
        recovered(
            meta,
            snapshot,
            lines.push(LineReadModel::Record { header: None, entry: Err(why) }),
            false,
        ) == recovered(meta, snapshot, lines.push(LineReadModel::Blank), true),
{
    torn_tail_read(lines, why, 0, None, Seq::empty());
}

/// Recovery never gives back a state whose commit point is beyond its log: a torn or missing
/// committed entry is refused, not truncated.
pub proof fn committed_entries_are_never_lost(
    meta: MetaReadModel,
    snapshot: SnapshotReadModel,
    lines: Seq<LineReadModel>,
    terminated: bool,
)
    requires
        recovered(meta, snapshot, lines, terminated) is Ok,
        recovered(meta, snapshot, lines, terminated)->Ok_0.log.len() <= u64::MAX,
    ensures
        meta_or_fresh(meta).commit_index <= recovered(
            meta,
            snapshot,
            lines,
            terminated,
        )->Ok_0.commit_index,
        recovered(meta, snapshot, lines, terminated)->Ok_0.commit_index <= recovered(
            meta,
            snapshot,
            lines,
            terminated,
        )->Ok_0.last_index(),
{
    faultless_state_is_valid(recovered(meta, snapshot, lines, terminated)->Ok_0);
}

} // verus!
