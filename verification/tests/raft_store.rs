use fiducia_brain::cluster::Command;
use fiducia_brain::raft::{LogEntry, Persisted};
use fiducia_brain::raft_store::{
    frame_log, read_line, read_meta, read_snapshot, split_log, validate_persisted, LineRead, LogHeader, Meta, MetaRead, RaftStore,
    SaveStep, SnapshotRead, StoreError, LOG_FORMAT_VERSION,
};
use serde_json::Value;

fn entry(index: u64, term: u64) -> LogEntry {
    LogEntry {
        term,
        index,
        command: Some(Command::ForgetNode(format!("n{index}"))),
    }
}

fn header(base_index: u64, base_term: u64) -> LineRead {
    LineRead::Record {
        header: Some(LogHeader {
            v: LOG_FORMAT_VERSION,
            base_index,
            base_term,
        }),
        entry: Err("a header is no entry".to_string()),
    }
}

fn record(e: LogEntry) -> LineRead {
    LineRead::Record {
        header: None,
        entry: Ok(e),
    }
}

fn broken() -> LineRead {
    LineRead::Record {
        header: None,
        entry: Err("expected value".to_string()),
    }
}

fn meta(current_term: u64, commit_index: u64, base_index: u64, base_term: u64) -> MetaRead {
    MetaRead::Read(Meta {
        current_term,
        voted_for: None,
        commit_index,
        base_index,
        base_term,
    })
}

fn fresh() -> RaftStore {
    RaftStore::open(MetaRead::Missing, SnapshotRead::Missing, Vec::new(), true)
        .unwrap()
        .0
}

/// What files hold after the given steps were carried out in order.
struct Disk {
    meta: MetaRead,
    snapshot: SnapshotRead,
    lines: Vec<LineRead>,
}

impl Disk {
    fn blank() -> Self {
        Disk {
            meta: MetaRead::Missing,
            snapshot: SnapshotRead::Missing,
            lines: Vec::new(),
        }
    }

    fn write(&mut self, step: SaveStep) {
        match step {
            SaveStep::Snapshot(bytes) => self.snapshot = SnapshotRead::Read(bytes),
            SaveStep::Log {
                base_index,
                base_term,
                entries,
            } => {
                self.lines = vec![header(base_index, base_term)];
                self.lines.extend(entries.into_iter().map(record));
            }
            SaveStep::Meta(m) => self.meta = MetaRead::Read(m),
        }
    }

    fn open(self, terminated: bool) -> Result<(RaftStore, Persisted), StoreError> {
        let mut lines = self.lines;
        if terminated && !lines.is_empty() {
            lines.push(LineRead::Blank);
        }
        RaftStore::open(self.meta, self.snapshot, lines, terminated)
    }
}

fn saved(p: &Persisted) -> Disk {
    let mut disk = Disk::blank();
    for step in fresh().save(p).unwrap() {
        disk.write(step);
    }
    disk
}

fn open_error(disk: Disk, terminated: bool) -> StoreError {
    match disk.open(terminated) {
        Ok(_) => panic!("corrupt Raft store unexpectedly opened"),
        Err(error) => error,
    }
}

#[test]
fn newline_terminated_corruption_is_rejected_and_preserved() {
    let mut disk = saved(&Persisted {
        current_term: 1,
        commit_index: 1,
        log: vec![entry(1, 1)],
        ..Default::default()
    });
    disk.lines.push(broken());
    let error = open_error(disk, true);
    assert!(matches!(error, StoreError::BadRecord { line: 3, .. }));
    assert!(error.message().contains("line 3"));
}

#[test]
fn descending_log_terms_are_rejected() {
    let disk = Disk {
        meta: meta(3, 0, 0, 0),
        snapshot: SnapshotRead::Missing,
        lines: vec![header(0, 0), record(entry(1, 3)), record(entry(2, 2))],
    };
    assert!(open_error(disk, true).message().contains("term descends"));
}

#[test]
fn durable_log_without_hard_state_is_rejected() {
    let disk = Disk {
        meta: MetaRead::Missing,
        snapshot: SnapshotRead::Missing,
        lines: vec![header(0, 0), record(entry(1, 1))],
    };
    assert!(open_error(disk, true).message().contains("meta is missing"));
}

#[test]
fn snapshot_without_a_nonzero_base_is_rejected() {
    let disk = Disk {
        meta: meta(1, 0, 0, 0),
        snapshot: SnapshotRead::Read(b"stale snapshot".to_vec()),
        lines: Vec::new(),
    };
    assert!(open_error(disk, true).message().contains("snapshot presence"));
}

#[test]
fn save_rejects_term_history_ahead_of_hard_state() {
    let error = fresh()
        .save(&Persisted {
            current_term: 1,
            commit_index: 0,
            log: vec![entry(1, 2)],
            ..Default::default()
        })
        .expect_err("invalid in-memory state must not become durable");
    assert!(error.message().contains("exceeds current term"));
}

#[test]
fn fresh_store_recovers_empty() {
    let (_s, rec) =
        RaftStore::open(MetaRead::Missing, SnapshotRead::Missing, Vec::new(), true).unwrap();
    assert_eq!(rec.current_term, 0);
    assert_eq!(rec.voted_for, None);
    assert_eq!(rec.commit_index, 0);
    assert!(rec.log.is_empty());
}

#[test]
fn hard_state_and_log_round_trip_across_reopen() {
    let disk = saved(&Persisted {
        current_term: 7,
        voted_for: Some("brain-b".to_string()),
        commit_index: 2,
        log: vec![entry(1, 7), entry(2, 7)],
        ..Default::default()
    });
    let (_s, rec) = disk.open(true).unwrap();
    assert_eq!(rec.current_term, 7);
    assert_eq!(rec.voted_for.as_deref(), Some("brain-b"));
    assert_eq!(rec.commit_index, 2);
    assert_eq!(rec.log.len(), 2);
    assert_eq!(rec.log[1].index, 2);
}

#[test]
fn torn_trailing_record_is_dropped_on_load() {
    let mut disk = saved(&Persisted {
        current_term: 1,
        voted_for: None,
        commit_index: 1,
        log: vec![entry(1, 1)],
        ..Default::default()
    });
    // A crash mid-write: a partial line with no line end.
    disk.lines.push(broken());
    let (_s, rec) = disk.open(false).unwrap();
    assert_eq!(rec.log.len(), 1, "torn record must be dropped");
    assert_eq!(rec.log[0].index, 1);
}

#[test]
fn a_crash_between_the_log_and_meta_writes_still_recovers() {
    // The state as it was before compaction, which is what meta still holds.
    let mut disk = saved(&Persisted {
        current_term: 2,
        voted_for: None,
        commit_index: 3,
        log: vec![entry(1, 2), entry(2, 2), entry(3, 2)],
        ..Default::default()
    });
    // Compaction: snapshot + log (with the new base in its header) reach disk,
    // then the process dies before meta is rewritten.
    disk.write(SaveStep::Snapshot(b"state@3".to_vec()));
    disk.write(SaveStep::Log {
        base_index: 3,
        base_term: 2,
        entries: vec![entry(4, 2)],
    });
    let (_s, rec) = disk.open(true).expect("a half-finished save still boots");
    assert_eq!(rec.base_index, 3, "base recovered from the log header");
    assert_eq!(rec.base_term, 2);
    assert_eq!(
        rec.commit_index, 3,
        "commit cannot precede the snapshot base"
    );
    assert_eq!(rec.log.len(), 1);
    assert_eq!(rec.log[0].index, 4);
    assert_eq!(rec.snapshot.as_deref(), Some(b"state@3".as_slice()));
}

#[test]
fn a_headerless_v0_log_is_read_and_migrated() {
    let disk = Disk {
        meta: MetaRead::Read(Meta {
            current_term: 4,
            voted_for: Some("brain-c".to_string()),
            commit_index: 5,
            base_index: 3,
            base_term: 2,
        }),
        snapshot: SnapshotRead::Read(b"state@3".to_vec()),
        lines: vec![record(entry(4, 4)), record(entry(5, 4))],
    };
    let (store, rec) = disk.open(true).expect("a log without a header still opens");
    assert_eq!(rec.base_index, 3, "base taken from meta for a headerless log");
    assert_eq!(rec.base_term, 2);
    assert_eq!(rec.commit_index, 5);
    assert_eq!(rec.log.len(), 2);
    assert_eq!(rec.voted_for.as_deref(), Some("brain-c"));

    // Written again it has a header, and it round-trips.
    let mut again = Disk::blank();
    for step in store.save(&rec).unwrap() {
        again.write(step);
    }
    match &again.lines[0] {
        LineRead::Record {
            header: Some(h), ..
        } => assert_eq!(h.v, 1),
        other => panic!("expected a header, got {other:?}"),
    }
    let (_s, again) = again.open(true).unwrap();
    assert_eq!(again.base_index, 3);
    assert_eq!(again.log.len(), 2);
}

#[test]
fn torn_committed_record_aborts_recovery_without_canonicalizing_log() {
    let disk = Disk {
        meta: meta(2, 2, 0, 0),
        snapshot: SnapshotRead::Missing,
        lines: vec![header(0, 0), record(entry(1, 2)), broken()],
    };
    assert!(open_error(disk, false)
        .message()
        .contains("refusing to truncate committed entries"));
}

#[test]
fn log_files_are_lines() {
    let bytes = frame_log(&b"{h}".to_vec(), &vec![b"{1}".to_vec(), b"{2}".to_vec()]);
    assert_eq!(bytes, b"{h}\n{1}\n{2}\n".to_vec());
    let (lines, terminated) = split_log(&bytes);
    assert!(terminated);
    assert_eq!(
        lines,
        vec![b"{h}".to_vec(), b"{1}".to_vec(), b"{2}".to_vec(), Vec::new()]
    );
    let (lines, terminated) = split_log(b"{h}\n{1");
    assert!(!terminated);
    assert_eq!(lines, vec![b"{h}".to_vec(), b"{1".to_vec()]);
}

#[test]
fn files_without_bytes_are_told_from_missing_ones() {
    let parsed = || -> Result<Meta, String> { Err("expected value".to_string()) };
    assert!(matches!(read_meta(&None, parsed()), MetaRead::Missing));
    assert!(matches!(read_meta(&Some(vec![]), parsed()), MetaRead::Empty));
    match read_meta(&Some(vec![b'?']), parsed()) {
        MetaRead::Invalid(why) => assert_eq!(why, "expected value"),
        other => panic!("unexpected {other:?}"),
    }
    let hard = Meta {
        current_term: 4,
        voted_for: None,
        commit_index: 2,
        base_index: 0,
        base_term: 0,
    };
    match read_meta(&Some(vec![b'{']), Ok(hard)) {
        MetaRead::Read(m) => assert_eq!(m.current_term, 4),
        other => panic!("unexpected {other:?}"),
    }

    assert!(matches!(read_snapshot(None), SnapshotRead::Missing));
    assert!(matches!(read_snapshot(Some(vec![])), SnapshotRead::Empty));
    match read_snapshot(Some(vec![1, 2])) {
        SnapshotRead::Read(bytes) => assert_eq!(bytes, vec![1, 2]),
        other => panic!("unexpected {other:?}"),
    }

    assert!(matches!(
        read_line(&vec![], None, Ok(entry(1, 1))),
        LineRead::Blank
    ));
    match read_line(&vec![b'{'], None, Ok(entry(1, 1))) {
        LineRead::Record { header: None, entry: Ok(e) } => assert_eq!(e.index, 1),
        other => panic!("unexpected {other:?}"),
    }
}

#[test]
fn a_saved_state_is_recovered_whatever_the_header_line_reads_as_otherwise() {
    let p = Persisted {
        current_term: 3,
        voted_for: Some("http://brain-1:8095".to_string()),
        commit_index: 6,
        base_index: 5,
        base_term: 2,
        snapshot: Some(vec![7]),
        log: vec![entry(6, 3)],
    };
    for otherwise in [
        Err(String::new()),
        Err("missing field `term`".to_string()),
        Ok(entry(6, 3)),
    ] {
        let mut disk = saved(&p);
        if let LineRead::Record { entry, .. } = &mut disk.lines[0] {
            *entry = otherwise;
        }
        let (_, back) = disk.open(true).unwrap();
        assert_eq!(back.current_term, 3);
        assert_eq!(back.base_index, 5);
        assert_eq!(back.commit_index, 6);
        assert_eq!(back.log.len(), 1);
    }
}

/// Files of bytes, written and read as JSON.
#[derive(Clone, Default)]
struct Files {
    meta: Option<Vec<u8>>,
    log: Option<Vec<u8>>,
    snapshot: Option<Vec<u8>>,
}

fn record_of(members: Vec<(&str, Value)>) -> Vec<u8> {
    let members = members.into_iter().map(|(k, v)| (k.to_string(), v));
    serde_json::to_vec(&Value::Object(members.collect())).unwrap()
}

fn parsed(bytes: &[u8]) -> Result<Value, String> {
    serde_json::from_slice(bytes).map_err(|err| err.to_string())
}

fn number(v: &Value, name: &str) -> Result<u64, String> {
    v[name].as_u64().ok_or(format!("missing field `{name}`"))
}

fn read_entry(line: &[u8]) -> Result<LogEntry, String> {
    let v = parsed(line)?;
    Ok(LogEntry {
        term: number(&v, "term")?,
        index: number(&v, "index")?,
        command: v["forget"].as_str().map(|n| Command::ForgetNode(n.to_string())),
    })
}

fn read_header(line: &[u8]) -> Result<LogHeader, String> {
    let v = parsed(line)?;
    Ok(LogHeader {
        v: number(&v, "v")?,
        base_index: number(&v, "base_index")?,
        base_term: number(&v, "base_term")?,
    })
}

fn read_hard_state(bytes: &[u8]) -> Result<Meta, String> {
    let v = parsed(bytes)?;
    Ok(Meta {
        current_term: number(&v, "current_term")?,
        voted_for: v["voted_for"].as_str().map(str::to_string),
        commit_index: number(&v, "commit_index")?,
        base_index: number(&v, "base_index")?,
        base_term: number(&v, "base_term")?,
    })
}

impl Files {
    fn write(&mut self, step: SaveStep) {
        match step {
            SaveStep::Snapshot(bytes) => self.snapshot = Some(bytes),
            SaveStep::Log {
                base_index,
                base_term,
                entries,
            } => {
                let header = record_of(vec![
                    ("v", Value::from(LOG_FORMAT_VERSION)),
                    ("base_index", Value::from(base_index)),
                    ("base_term", Value::from(base_term)),
                ]);
                let entries = entries
                    .iter()
                    .map(|e| {
                        let forget = match &e.command {
                            Some(Command::ForgetNode(n)) => Value::from(n.clone()),
                            _ => Value::Null,
                        };
                        record_of(vec![
                            ("term", Value::from(e.term)),
                            ("index", Value::from(e.index)),
                            ("forget", forget),
                        ])
                    })
                    .collect();
                self.log = Some(frame_log(&header, &entries));
            }
            SaveStep::Meta(m) => {
                self.meta = Some(record_of(vec![
                    ("current_term", Value::from(m.current_term)),
                    ("voted_for", m.voted_for.map_or(Value::Null, Value::from)),
                    ("commit_index", Value::from(m.commit_index)),
                    ("base_index", Value::from(m.base_index)),
                    ("base_term", Value::from(m.base_term)),
                ]))
            }
        }
    }

    fn open(&self) -> Result<(RaftStore, Persisted), StoreError> {
        let hard = read_hard_state(self.meta.as_deref().unwrap_or_default());
        let (lines, terminated) = split_log(self.log.as_deref().unwrap_or_default());
        let lines = lines
            .iter()
            .map(|l| read_line(l, read_header(l).ok(), read_entry(l)))
            .collect();
        RaftStore::open(
            read_meta(&self.meta, hard),
            read_snapshot(self.snapshot.clone()),
            lines,
            terminated,
        )
    }
}

fn assert_same(a: &Persisted, b: &Persisted) {
    assert_eq!(a.current_term, b.current_term);
    assert_eq!(a.voted_for, b.voted_for);
    assert_eq!(a.commit_index, b.commit_index);
    assert_eq!(a.base_index, b.base_index);
    assert_eq!(a.base_term, b.base_term);
    assert_eq!(a.snapshot, b.snapshot);
    assert_eq!(format!("{:?}", a.log), format!("{:?}", b.log));
}

#[test]
fn bytes_on_disk_give_the_saved_state_back() {
    let mut files = Files::default();
    let (store, blank) = files.open().unwrap();
    assert_same(&blank, &Persisted::default());

    let old = Persisted {
        current_term: 7,
        voted_for: Some("brain-2\nwith a line end".to_string()),
        commit_index: 3,
        base_index: 0,
        base_term: 0,
        snapshot: None,
        log: vec![entry(1, 2), entry(2, 7), entry(3, 7), entry(4, 7)],
    };
    for step in store.save(&old).unwrap() {
        files.write(step);
    }
    assert_same(&files.open().unwrap().1, &old);

    // A compaction, with the crash before its last write and without.
    let new = Persisted {
        current_term: 7,
        voted_for: old.voted_for.clone(),
        commit_index: 3,
        base_index: 2,
        base_term: 7,
        snapshot: Some(vec![10, 0, 10]),
        log: vec![entry(3, 7), entry(4, 7)],
    };
    let mut steps = store.save(&new).unwrap();
    let last = steps.pop().unwrap();
    for step in steps {
        files.write(step);
    }
    assert_same(&files.open().unwrap().1, &new);
    files.write(last);
    assert_same(&files.open().unwrap().1, &new);

    // A torn tail is dropped, but not where it was committed.
    let whole = files.log.clone().unwrap();
    files.log = Some(whole[..whole.len() - 3].to_vec());
    assert_eq!(files.open().unwrap().1.log.len(), 1);
    let mut committed = files.clone();
    let mut hard = new.clone();
    hard.commit_index = 4;
    committed.write(store.save(&hard).unwrap().pop().unwrap());
    assert!(matches!(
        committed.open().err().unwrap(),
        StoreError::CommitBeyondLog { .. }
    ));

    // A snapshot file without bytes is not believed.
    files.snapshot = Some(vec![]);
    assert!(matches!(files.open().err().unwrap(), StoreError::SnapshotEmpty));
}

#[test]
fn a_failing_store_saves_nothing() {
    let mut store = fresh();
    store.fail_saves_for_test();
    assert!(store.save(&Persisted::default()).is_err());
}

#[test]
fn every_refusal_has_an_input() {
    let p = |f: &dyn Fn(&mut Persisted)| {
        let mut p = Persisted {
            current_term: 5,
            voted_for: None,
            commit_index: 4,
            log: vec![entry(4, 3), entry(5, 4)],
            base_index: 3,
            base_term: 2,
            snapshot: Some(b"s".to_vec()),
        };
        f(&mut p);
        validate_persisted(&p)
    };
    assert!(p(&|_| {}).is_ok());
    assert!(matches!(
        p(&|p| {
            p.current_term = 0;
            p.voted_for = Some("x".to_string());
        }),
        Err(StoreError::VoteInTermZero)
    ));
    assert!(matches!(
        p(&|p| p.base_term = 0),
        Err(StoreError::BaseMismatch { index: 3, term: 0 })
    ));
    assert!(matches!(
        p(&|p| p.snapshot = None),
        Err(StoreError::SnapshotPresence)
    ));
    assert!(matches!(
        p(&|p| p.base_term = 6),
        Err(StoreError::SnapshotTermAhead {
            base_term: 6,
            current_term: 5
        })
    ));
    assert!(matches!(
        p(&|p| p.commit_index = 2),
        Err(StoreError::CommitBeforeBase { commit: 2, base: 3 })
    ));
    for (change, text) in [
        (0, "term descends"),
        (1, "exceeds current term"),
        (2, "refusing to truncate committed entries"),
    ] {
        let error = p(&|p| match change {
            0 => p.log[1].term = 2,
            1 => p.log[1].term = 9,
            _ => p.commit_index = 9,
        })
        .unwrap_err();
        assert!(error.message().contains(text), "{}", error.message());
    }
    assert!(p(&|p| p.log[1].index = 9).is_err(), "a gap in the log");

    let open = |m, s, l, t| RaftStore::open(m, s, l, t).err().unwrap();
    assert!(matches!(
        open(MetaRead::Empty, SnapshotRead::Missing, vec![], true),
        StoreError::MetaEmpty
    ));
    assert!(matches!(
        open(
            MetaRead::Invalid("bad".to_string()),
            SnapshotRead::Missing,
            vec![],
            true
        ),
        StoreError::MetaInvalid { .. }
    ));
    assert!(matches!(
        open(meta(1, 0, 0, 0), SnapshotRead::Empty, vec![], true),
        StoreError::SnapshotEmpty
    ));
    assert!(matches!(
        open(
            meta(1, 0, 0, 0),
            SnapshotRead::Missing,
            vec![header(0, 0), LineRead::Blank, record(entry(1, 1)), LineRead::Blank],
            true
        ),
        StoreError::BlankRecord { line: 2 }
    ));
    assert!(matches!(
        open(
            meta(1, 0, 0, 0),
            SnapshotRead::Missing,
            vec![
                LineRead::Record {
                    header: Some(LogHeader {
                        v: 9,
                        base_index: 0,
                        base_term: 0
                    }),
                    entry: Err(String::new())
                },
                LineRead::Blank
            ],
            true
        ),
        StoreError::UnsupportedFormat { v: 9 }
    ));
}
