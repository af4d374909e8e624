//! The log against a disk that is kept in memory.

use std::collections::BTreeMap;

use chrono::{DateTime, Utc};
use linexus_logger::lines::{count_lines, frame_line, record_lines};
use linexus_logger::oplog::{
    read_segment, AppendAction, AppendEvent, OpEntry, OpLog, Query,
};
use linexus_logger::segments::{list_segments, segment_path};
use linexus_logger::timestamp::Timestamp;
use serde_json::Value;

fn stamp(at: DateTime<Utc>) -> Timestamp {
    Timestamp { secs: at.timestamp(), nanos: at.timestamp_subsec_nanos() }
}

fn entry(msg: &str, agent: Option<&str>, task: Option<&str>) -> OpEntry {
    OpEntry {
        timestamp: stamp(Utc::now()),
        level: "info".into(),
        source: "test".into(),
        message: msg.into(),
        agent_id: agent.map(String::from),
        task_id: task.map(String::from),
        metadata: None,
    }
}

fn encode(e: &OpEntry) -> String {
    let mut object = serde_json::Map::new();
    let at = DateTime::from_timestamp(e.timestamp.secs, e.timestamp.nanos).unwrap();
    object.insert("timestamp".into(), Value::from(at.to_rfc3339()));
    object.insert("level".into(), Value::from(e.level.clone()));
    object.insert("source".into(), Value::from(e.source.clone()));
    object.insert("message".into(), Value::from(e.message.clone()));
    if let Some(a) = &e.agent_id {
        object.insert("agent_id".into(), Value::from(a.clone()));
    }
    if let Some(t) = &e.task_id {
        object.insert("task_id".into(), Value::from(t.clone()));
    }
    if let Some(m) = &e.metadata {
        object.insert("metadata".into(), m.clone());
    }
    serde_json::to_string(&Value::Object(object)).unwrap()
}

fn decode(line: &str) -> Option<OpEntry> {
    let value: Value = serde_json::from_str(line).ok()?;
    let text = |key: &str| value.get(key).and_then(|v| v.as_str()).map(String::from);
    let at = DateTime::parse_from_rfc3339(&text("timestamp")?).ok()?;
    Some(OpEntry {
        timestamp: stamp(at.with_timezone(&Utc)),
        level: text("level")?,
        source: text("source")?,
        message: text("message")?,
        agent_id: text("agent_id"),
        task_id: text("task_id"),
        metadata: value.get("metadata").cloned(),
    })
}

struct Disk {
    files: BTreeMap<String, Vec<u8>>,
    /// The segment that is open.
    open: u64,
    /// Whether segments can be opened.
    opens: bool,
    /// How many bytes of a line are written before the disk refuses.
    room: usize,
    /// Whether files can be read.
    reads: bool,
}

impl Disk {
    fn new() -> Disk {
        Disk { files: BTreeMap::new(), open: 0, opens: true, room: usize::MAX, reads: true }
    }

    fn names(&self) -> Vec<String> {
        self.files.keys().cloned().collect()
    }

    fn ids(&self) -> Vec<u64> {
        let mut ids = list_segments(&self.names());
        ids.sort_unstable();
        ids
    }

    fn lines_in(&self, id: u64) -> usize {
        count_lines(&self.files[&segment_path(id)])
    }

    fn entries_in(&self, id: u64) -> Vec<OpEntry> {
        let lines = record_lines(&self.files[&segment_path(id)]);
        read_segment(lines.iter().map(|line| decode(line)).collect())
    }

    fn open(&mut self, entries_per_segment: usize, max_index_entries: usize) -> OpLog {
        let mut replay = OpLog::open(&self.names(), entries_per_segment, max_index_entries);
        while let Some(id) = replay.next_segment() {
            replay.absorb(self.entries_in(id));
        }
        let last = replay.last_segment().map_or(Vec::new(), |id| {
            self.files[&segment_path(id)].clone()
        });
        let log = replay.resume(&last);
        self.open = log.stats().active_segment;
        self.files.entry(segment_path(self.open)).or_default();
        log
    }

    fn try_append(&mut self, log: &mut OpLog, e: OpEntry) -> bool {
        assert!(log.may_append());
        let mut event = AppendEvent::Begin;
        loop {
            event = match log.append(event) {
                AppendAction::Inspect => {
                    let file = self.files[&segment_path(self.open)].clone();
                    if self.reads {
                        assert!(log.may_append_to(&file));
                        AppendEvent::Inspected { file }
                    } else {
                        AppendEvent::InspectFailed
                    }
                }
                AppendAction::Open(id) => {
                    if self.opens {
                        self.open = id;
                        self.files.entry(segment_path(id)).or_default();
                        AppendEvent::Opened
                    } else {
                        AppendEvent::OpenFailed
                    }
                }
                AppendAction::Write { whole } => {
                    let line = frame_line(encode(&e), whole).into_bytes();
                    let file = self.files.get_mut(&segment_path(self.open)).unwrap();
                    if self.room < line.len() {
                        file.extend_from_slice(&line[..self.room]);
                        AppendEvent::WriteFailed
                    } else {
                        file.extend_from_slice(&line);
                        AppendEvent::Written(e.clone())
                    }
                }
                AppendAction::Keep => return true,
                AppendAction::Refuse => return false,
            };
        }
    }

    fn append(&mut self, log: &mut OpLog, e: OpEntry) {
        assert!(self.try_append(log, e));
    }

    fn sweep(&mut self, log: &OpLog, cutoff: DateTime<Utc>) -> usize {
        let mut sweep = log.sweep_expired(&self.names(), stamp(cutoff));
        while let Some(id) = sweep.next_segment() {
            let entries = self.entries_in(id);
            if sweep.judge(&entries) {
                self.files.remove(&segment_path(id));
                sweep.note_removed();
            }
        }
        sweep.removed()
    }
}

fn messages(entries: &[OpEntry]) -> Vec<String> {
    entries.iter().map(|e| e.message.clone()).collect()
}

#[test]
fn append_and_query_most_recent_first() {
    let mut disk = Disk::new();
    let mut log = disk.open(100, 1000);
    disk.append(&mut log, entry("first", Some("a1"), None));
    disk.append(&mut log, entry("second", Some("a1"), None));
    disk.append(&mut log, entry("other agent", Some("a2"), None));

    let got = log.query(&Query {
        agent_id: Some("a1".into()),
        limit: 10,
        ..Default::default()
    });
    assert_eq!(got.len(), 2);
    assert_eq!(got[0].message, "second", "newest must come first");
    assert_eq!(got[1].message, "first");
}

#[test]
fn rotation_by_entry_count() {
    let mut disk = Disk::new();
    let mut log = disk.open(2, 1000);
    for i in 0..5 {
        disk.append(&mut log, entry(&format!("m{i}"), None, None));
    }
    assert_eq!(disk.ids(), vec![0, 1, 2], "5 entries at 2/segment = 3 segments");
}

#[test]
fn restart_replays_from_disk() {
    let mut disk = Disk::new();
    {
        let mut log = disk.open(2, 1000);
        for i in 0..5 {
            disk.append(&mut log, entry(&format!("m{i}"), Some("a1"), None));
        }
    }

    let log = disk.open(2, 1000);
    let got = log.query(&Query { limit: 100, ..Default::default() });
    assert_eq!(got.len(), 5, "everything must survive a restart");
    assert_eq!(got[0].message, "m4", "order must survive the replay");
}

#[test]
fn restart_resumes_the_partial_segment() {
    let mut disk = Disk::new();
    {
        let mut log = disk.open(10, 1000);
        disk.append(&mut log, entry("only", None, None));
    }
    {
        let mut log = disk.open(10, 1000);
        disk.append(&mut log, entry("second", None, None));
    }
    assert_eq!(disk.ids(), vec![0], "a partial segment is resumed, not abandoned");
    assert_eq!(disk.lines_in(0), 2);
}

#[test]
fn index_is_bounded_but_disk_is_not() {
    let mut disk = Disk::new();
    let mut log = disk.open(10, 3);
    for i in 0..8 {
        disk.append(&mut log, entry(&format!("m{i}"), None, None));
    }
    let got = log.query(&Query { limit: 100, ..Default::default() });
    assert_eq!(got.len(), 3, "index holds only the newest N");
    assert_eq!(got[0].message, "m7");
    let on_disk: usize = disk.ids().iter().map(|id| disk.lines_in(*id)).sum();
    assert_eq!(on_disk, 8);
}

#[test]
fn task_filter_and_level_filter() {
    let mut disk = Disk::new();
    let mut log = disk.open(100, 1000);
    disk.append(&mut log, entry("planned", None, Some("t1")));
    let mut failed = entry("failed", None, Some("t1"));
    failed.level = "error".into();
    disk.append(&mut log, failed);
    disk.append(&mut log, entry("unrelated", None, Some("t2")));

    let by_task = log.query(&Query {
        task_id: Some("t1".into()),
        limit: 10,
        ..Default::default()
    });
    assert_eq!(by_task.len(), 2);

    let errors = log.query(&Query {
        task_id: Some("t1".into()),
        level: Some("ERROR".into()),
        limit: 10,
        ..Default::default()
    });
    assert_eq!(errors.len(), 1, "level filter is case-insensitive");
    assert_eq!(errors[0].message, "failed");
}

#[test]
fn retention_drops_whole_expired_segments_only() {
    let mut disk = Disk::new();
    let mut log = disk.open(2, 1000);
    let old = Utc::now() - chrono::Duration::days(90);
    for i in 0..4 {
        let mut e = entry(&format!("old{i}"), None, None);
        e.timestamp = stamp(old);
        disk.append(&mut log, e);
    }
    disk.append(&mut log, entry("fresh", None, None));

    let removed = disk.sweep(&log, Utc::now() - chrono::Duration::days(30));
    assert_eq!(removed, 2, "the two fully-old segments go");
    let survivors = disk.ids();
    assert!(
        survivors.contains(&log.stats().active_segment),
        "the active segment is never touched"
    );
}

#[test]
fn torn_line_does_not_poison_replay() {
    let mut disk = Disk::new();
    {
        let mut log = disk.open(100, 1000);
        disk.append(&mut log, entry("good", None, None));
    }
    let file = disk.files.get_mut(&segment_path(0)).unwrap();
    file.extend_from_slice(b"{\"timestamp\": \"not json");
    file.extend_from_slice(b"\n");

    let log = disk.open(100, 1000);
    let got = log.query(&Query { limit: 10, ..Default::default() });
    assert_eq!(got.len(), 1, "the good entry survives the torn one");
}

#[test]
fn torn_line_without_newline_keeps_the_lines_before_it() {
    let mut disk = Disk::new();
    let mut log = disk.open(100, 1000);
    disk.append(&mut log, entry("a", None, None));
    disk.append(&mut log, entry("b", None, None));
    disk.files.get_mut(&segment_path(0)).unwrap().extend_from_slice(b"{\"mess");
    assert_eq!(disk.lines_in(0), 3);
    let mut reopened = disk.open(100, 1000);
    assert_eq!(messages(&reopened.query(&Query::default())), vec!["b", "a"]);

    disk.append(&mut reopened, entry("c", None, None));
    assert_eq!(disk.lines_in(0), 4);
    let again = disk.open(100, 1000);
    let newest = again.query(&Query { limit: 1, ..Default::default() });
    assert_eq!(messages(&newest), vec!["c"]);
    assert_eq!(messages(&again.query(&Query::default())), vec!["c", "b", "a"]);
}

#[test]
fn a_refused_write_does_not_swallow_the_next_entry() {
    for room in [0, 1, 5, 20] {
        let mut disk = Disk::new();
        let mut log = disk.open(100, 1000);
        disk.append(&mut log, entry("a", None, None));
        disk.room = room;
        assert!(!disk.try_append(&mut log, entry("refused", None, None)));
        assert!(!disk.try_append(&mut log, entry("refused again", None, None)));
        assert_eq!(log.stats().appended_since_boot, 1);
        assert_eq!(messages(&log.query(&Query::default())), vec!["a"]);
        disk.room = usize::MAX;
        disk.append(&mut log, entry("b", None, None));
        assert_eq!(messages(&log.query(&Query::default())), vec!["b", "a"]);
        let reopened = disk.open(100, 1000);
        assert_eq!(messages(&reopened.query(&Query::default())), vec!["b", "a"]);
    }
}

#[test]
fn a_write_that_left_nothing_counts_for_nothing() {
    let mut disk = Disk::new();
    let mut log = disk.open(2, 1000);
    disk.append(&mut log, entry("a", None, None));
    disk.room = 0;
    for _ in 0..3 {
        assert!(!disk.try_append(&mut log, entry("refused", None, None)));
    }
    assert_eq!(log.stats().active_segment, 0);
    assert_eq!(disk.ids(), vec![0]);
    assert_eq!(disk.lines_in(0), 1);
    disk.room = usize::MAX;
    let before = disk.files[&segment_path(0)].clone();
    let e = entry("line\nbreak", None, None);
    let line = format!("{}\n", encode(&e));
    disk.append(&mut log, e);
    assert_eq!(log.stats().active_segment, 0, "the segment had room for one more");
    assert_eq!(disk.files[&segment_path(0)], [before, line.into_bytes()].concat());
    assert_eq!(disk.lines_in(0), 2);
    disk.append(&mut log, entry("c", None, None));
    assert_eq!(log.stats().active_segment, 1);
    assert_eq!(disk.ids(), vec![0, 1]);
    assert_eq!(messages(&disk.open(2, 1000).query(&Query::default())), vec!["c", "line\nbreak", "a"]);
}

#[test]
fn refused_writes_fill_no_segments() {
    let mut disk = Disk::new();
    let mut log = disk.open(2, 1000);
    disk.room = 0;
    for _ in 0..10 {
        assert!(!disk.try_append(&mut log, entry("refused", None, None)));
    }
    assert_eq!(log.stats().active_segment, 0);
    assert_eq!(log.stats().appended_since_boot, 0);
    assert_eq!(disk.ids(), vec![0]);
}

#[test]
fn a_closed_fragment_counts_once() {
    let mut disk = Disk::new();
    let mut log = disk.open(3, 1000);
    disk.room = 4;
    assert!(!disk.try_append(&mut log, entry("refused", None, None)));
    disk.room = 1;
    assert!(!disk.try_append(&mut log, entry("refused", None, None)));
    assert_eq!(disk.files[&segment_path(0)].last(), Some(&b'\n'));
    assert_eq!(disk.lines_in(0), 1);
    disk.room = usize::MAX;
    disk.append(&mut log, entry("a", None, None));
    disk.append(&mut log, entry("b", None, None));
    assert_eq!(disk.lines_in(0), 3);
    assert_eq!(log.stats().active_segment, 0);
    disk.append(&mut log, entry("c", None, None));
    assert_eq!(log.stats().active_segment, 1);
    assert_eq!(disk.lines_in(1), 1);
}

#[test]
fn a_segment_that_cannot_be_looked_at_takes_no_line() {
    let mut disk = Disk::new();
    let mut log = disk.open(3, 1000);
    disk.room = 4;
    assert!(!disk.try_append(&mut log, entry("refused", None, None)));
    disk.room = usize::MAX;
    disk.reads = false;
    assert!(!disk.try_append(&mut log, entry("refused", None, None)));
    assert_eq!(disk.files[&segment_path(0)].len(), 4);
    disk.reads = true;
    disk.append(&mut log, entry("a", None, None));
    assert_eq!(messages(&disk.open(3, 1000).query(&Query::default())), vec!["a"]);
}

#[test]
fn a_restart_with_other_segments_finds_the_same() {
    let mut disk = Disk::new();
    let mut log = disk.open(3, 4);
    for i in 0..7 {
        disk.append(&mut log, entry(&format!("m{i}"), None, None));
    }
    let expected = messages(&log.query(&Query::default()));
    assert_eq!(expected, vec!["m6", "m5", "m4", "m3"]);
    for per_segment in [1, 2, 5, 100] {
        let reopened = disk.open(per_segment, 4);
        assert_eq!(messages(&reopened.query(&Query::default())), expected);
        assert_eq!(reopened.stats().indexed_entries, 4);
    }
}

#[test]
fn fragments_count_against_the_size_of_a_segment() {
    let mut disk = Disk::new();
    let mut log = disk.open(3, 1000);
    disk.room = 4;
    assert!(!disk.try_append(&mut log, entry("refused", None, None)));
    disk.room = usize::MAX;
    for i in 0..4 {
        disk.append(&mut log, entry(&format!("m{i}"), None, None));
    }
    assert_eq!(disk.lines_in(0), 3);
    assert_eq!(disk.lines_in(1), 2);
}

#[test]
fn a_failed_rotation_leaves_the_open_segment_active() {
    let mut disk = Disk::new();
    let mut log = disk.open(2, 1000);
    let old = Utc::now() - chrono::Duration::days(90);
    for i in 0..2 {
        let mut e = entry(&format!("old{i}"), None, None);
        e.timestamp = stamp(old);
        disk.append(&mut log, e);
    }
    disk.opens = false;
    assert!(!disk.try_append(&mut log, entry("refused", None, None)));
    assert!(!disk.try_append(&mut log, entry("refused", None, None)));
    assert_eq!(log.stats().active_segment, 0);
    assert_eq!(disk.sweep(&log, Utc::now()), 0, "the open segment is not swept");
    assert_eq!(disk.lines_in(0), 2);

    disk.opens = true;
    disk.append(&mut log, entry("fresh", None, None));
    assert_eq!(log.stats().active_segment, 1);
    assert_eq!(disk.ids(), vec![0, 1]);
    assert_eq!(disk.sweep(&log, Utc::now()), 1);
    assert_eq!(disk.ids(), vec![1]);
    assert_eq!(messages(&disk.entries_in(1)), vec!["fresh"]);
}

#[test]
fn only_what_is_written_is_indexed() {
    let mut log = OpLog::open(&Vec::new(), 1, 10).resume(b"");
    assert!(matches!(log.append(AppendEvent::Begin), AppendAction::Write { whole: true }));
    assert_eq!(log.stats().indexed_entries, 0);
    let kept = log.append(AppendEvent::Written(entry("m", None, None)));
    assert!(matches!(kept, AppendAction::Keep));
    assert_eq!(log.stats().indexed_entries, 1);
    assert!(matches!(log.append(AppendEvent::Begin), AppendAction::Open(1)));
    assert_eq!(log.stats().active_segment, 0);
    assert!(matches!(log.append(AppendEvent::Opened), AppendAction::Write { whole: true }));
    assert_eq!(log.stats().active_segment, 1);
    assert!(matches!(log.append(AppendEvent::WriteFailed), AppendAction::Refuse));
    assert_eq!(log.stats().appended_since_boot, 1);
}

#[test]
fn a_line_torn_inside_a_character_keeps_the_lines_before_it() {
    let mut disk = Disk::new();
    let mut log = disk.open(100, 1000);
    disk.append(&mut log, entry("\u{e9}t\u{e9}", None, None));
    disk.files.get_mut(&segment_path(0)).unwrap().extend_from_slice(b"{\"message\":\"\xc3");
    assert_eq!(disk.lines_in(0), 2);
    let reopened = disk.open(100, 1000);
    assert_eq!(messages(&reopened.query(&Query::default())), vec!["\u{e9}t\u{e9}"]);
}

#[test]
fn a_new_log_starts_with_segment_zero() {
    let mut disk = Disk::new();
    let log = disk.open(10, 10);
    let stats = log.stats();
    assert_eq!(stats.indexed_entries, 0);
    assert_eq!(stats.appended_since_boot, 0);
    assert_eq!(stats.active_segment, 0);
    assert_eq!(disk.names(), vec!["segment-000000.jsonl"]);
}

#[test]
fn stats_count_since_boot() {
    let mut disk = Disk::new();
    let mut log = disk.open(2, 2);
    for i in 0..3 {
        disk.append(&mut log, entry(&format!("m{i}"), None, None));
    }
    let stats = log.stats();
    assert_eq!(stats.indexed_entries, 2);
    assert_eq!(stats.appended_since_boot, 3);
    assert_eq!(stats.active_segment, 1);
    let reopened = disk.open(2, 2).stats();
    assert_eq!(reopened.indexed_entries, 2);
    assert_eq!(reopened.appended_since_boot, 0);
    assert_eq!(reopened.active_segment, 1);
}

#[test]
fn restart_on_a_full_segment_opens_the_next() {
    let mut disk = Disk::new();
    let mut log = disk.open(2, 100);
    disk.append(&mut log, entry("m0", None, None));
    disk.append(&mut log, entry("m1", None, None));
    assert_eq!(log.stats().active_segment, 0);
    let reopened = disk.open(2, 100);
    assert_eq!(reopened.stats().active_segment, 1);
    assert_eq!(messages(&reopened.query(&Query::default())), vec!["m1", "m0"]);
    assert_eq!(disk.ids(), vec![0, 1]);
    assert_eq!(disk.lines_in(1), 0);
}

#[test]
fn replay_reads_no_more_segments_than_the_index_holds() {
    let names: Vec<String> = (0..4).map(segment_path).collect();
    let mut replay = OpLog::open(&names, 2, 3);
    assert_eq!(replay.next_segment(), Some(3));
    replay.absorb(vec![entry("m6", None, None), entry("m7", None, None)]);
    assert_eq!(replay.next_segment(), Some(2));
    replay.absorb(vec![entry("m4", None, None), entry("m5", None, None)]);
    assert_eq!(replay.next_segment(), None);
    assert_eq!(replay.last_segment(), Some(3));
    let log = replay.resume(b"a\nb\n");
    assert_eq!(messages(&log.query(&Query::default())), vec!["m7", "m6", "m5"]);
    assert_eq!(log.stats().active_segment, 4);
}

#[test]
fn listing_order_does_not_matter() {
    let names: Vec<String> = vec![
        "segment-000002.jsonl".into(),
        "notes.txt".into(),
        "segment-000010.jsonl".into(),
        "segment-000001.jsonl".into(),
    ];
    let replay = OpLog::open(&names, 5, 5);
    assert_eq!(replay.next_segment(), Some(10));
    assert_eq!(replay.last_segment(), Some(10));
}

#[test]
fn a_limit_of_zero_stands_for_a_hundred() {
    let mut disk = Disk::new();
    let mut log = disk.open(1000, 1000);
    for i in 0..150 {
        disk.append(&mut log, entry(&format!("m{i}"), None, None));
    }
    let got = log.query(&Query::default());
    assert_eq!(got.len(), 100);
    assert_eq!(got[0].message, "m149");
    assert_eq!(got[99].message, "m50");
    assert_eq!(log.query(&Query { limit: 7, ..Default::default() }).len(), 7);
}

#[test]
fn an_appended_entry_is_the_first_answer() {
    let mut disk = Disk::new();
    let mut log = disk.open(3, 2);
    for i in 0..7 {
        let message = format!("m{i}");
        disk.append(&mut log, entry(&message, Some("a1"), None));
        let got = log.query(&Query { agent_id: Some("a1".into()), ..Default::default() });
        assert_eq!(got[0].message, message);
    }
}

#[test]
fn filters_compare_whole_values() {
    let mut disk = Disk::new();
    let mut log = disk.open(10, 10);
    disk.append(&mut log, entry("x", Some("a1"), None));
    let by = |agent: &str| log.query(&Query {
        agent_id: Some(agent.into()),
        ..Default::default()
    });
    assert_eq!(by("a1").len(), 1);
    assert_eq!(by("a").len(), 0);
    assert_eq!(by("A1").len(), 0);
    assert_eq!(by("").len(), 0);
    let by_level = |level: &str| log.query(&Query {
        level: Some(level.into()),
        ..Default::default()
    });
    assert_eq!(by_level("Info").len(), 1);
    assert_eq!(by_level("inf").len(), 0);
}

#[test]
fn only_ascii_letters_lose_their_case() {
    let mut disk = Disk::new();
    let mut log = disk.open(10, 10);
    let mut e = entry("x", None, None);
    e.level = "\u{e9}[Z".into();
    disk.append(&mut log, e);
    let by_level = |level: &str| log.query(&Query {
        level: Some(level.into()),
        ..Default::default()
    });
    assert_eq!(by_level("\u{e9}[z").len(), 1);
    assert_eq!(by_level("\u{c9}[z").len(), 0);
    assert_eq!(by_level("\u{e9}{z").len(), 0);
}

#[test]
fn retention_keeps_segments_with_a_recent_entry() {
    let mut disk = Disk::new();
    let mut log = disk.open(2, 1000);
    let old = Utc::now() - chrono::Duration::days(90);
    for (i, recent) in [false, true, false, false, true].iter().enumerate() {
        let mut e = entry(&format!("m{i}"), None, None);
        if !recent {
            e.timestamp = stamp(old);
        }
        disk.append(&mut log, e);
    }
    let cutoff = Utc::now() - chrono::Duration::days(30);
    assert_eq!(disk.sweep(&log, cutoff), 1);
    assert_eq!(disk.ids(), vec![0, 2]);
    assert_eq!(messages(&disk.entries_in(0)), vec!["m0", "m1"]);
    assert_eq!(disk.sweep(&log, cutoff), 0);

    disk.append(&mut log, entry("m5", None, None));
    let reopened = disk.open(2, 1000);
    let got = reopened.query(&Query::default());
    assert_eq!(messages(&got), vec!["m5", "m4", "m1", "m0"]);
}

#[test]
fn an_entry_at_the_cutoff_is_kept() {
    let cutoff = Utc::now();
    let mut disk = Disk::new();
    let mut log = disk.open(1, 10);
    let mut e = entry("edge", None, None);
    e.timestamp = stamp(cutoff);
    disk.append(&mut log, e);
    disk.append(&mut log, entry("active", None, None));
    assert_eq!(disk.sweep(&log, cutoff), 0);
    assert_eq!(disk.sweep(&log, cutoff + chrono::Duration::nanoseconds(1)), 1);
}

#[test]
fn a_segment_without_entries_is_swept_unless_it_is_active() {
    let mut disk = Disk::new();
    disk.files.insert(segment_path(0), b"garbage\n\n".to_vec());
    let mut log = disk.open(1, 10);
    assert_eq!(log.stats().active_segment, 1);
    assert_eq!(disk.sweep(&log, Utc::now()), 1);
    assert_eq!(disk.ids(), vec![1]);
    disk.append(&mut log, entry("m", None, None));
    assert_eq!(disk.ids(), vec![1]);
}

#[test]
fn lines_that_are_no_record_are_skipped() {
    let kept = read_segment(vec![
        None,
        Some(entry("a", None, None)),
        None,
        Some(entry("b", None, None)),
    ]);
    assert_eq!(messages(&kept), vec!["a", "b"]);
    assert_eq!(read_segment(vec![None, None]).len(), 0);
}

#[test]
fn an_index_of_no_entries_answers_nothing() {
    let mut disk = Disk::new();
    let mut log = disk.open(2, 0);
    disk.append(&mut log, entry("m", None, None));
    assert_eq!(log.query(&Query::default()).len(), 0);
    assert_eq!(log.stats().indexed_entries, 0);
    assert_eq!(disk.lines_in(0), 1);
}

#[test]
fn an_append_edits_no_earlier_line() {
    let mut disk = Disk::new();
    let mut log = disk.open(2, 10);
    disk.append(&mut log, entry("m0", None, None));
    let before = disk.files[&segment_path(0)].clone();
    for i in 1..4 {
        disk.append(&mut log, entry(&format!("m{i}"), None, None));
    }
    assert!(disk.files[&segment_path(0)].starts_with(&before));
    assert_eq!(disk.ids(), vec![0, 1]);
}

#[test]
fn metadata_travels_with_an_entry() {
    let mut disk = Disk::new();
    let mut log = disk.open(2, 10);
    let mut e = entry("m", None, None);
    e.metadata = Some(Value::from(vec![1, 2, 3]));
    disk.append(&mut log, e);
    let got = log.query(&Query::default());
    assert_eq!(got[0].metadata, Some(Value::from(vec![1, 2, 3])));
    let reopened = disk.open(2, 10);
    assert_eq!(reopened.query(&Query::default())[0].metadata, Some(Value::from(vec![1, 2, 3])));
    let q = Query { limit: 1, ..Default::default() };
    assert_eq!(log.query(&q.clone()).len(), 1);
}
