//! Operational log: the in-memory side of an append-only audit trail.
//!
//! Entries live in segment files, one record per line, and a segment is never
//! rewritten: append is the only mutation, and retention removes whole expired
//! segments. Queries are served from a bounded index of the newest entries,
//! which is rebuilt from the segments when the log is opened.
//!
//! This module decides; the files themselves are read, written and removed by
//! its caller, which hands back what it found.

use std::collections::VecDeque;

use vstd::prelude::*;

use crate::json::copy_metadata;
use crate::lines::{count_lines, ends_whole, is_whole, lines_of, text_views};
use crate::segments::{ascending, segment_ids, sorted_segments};
use crate::text::{
    ascii_lower, eq_ignore_ascii_case, law_only_ascii_letters_lose_their_case, opt_text,
    same_ignoring_ascii_case,
};
use crate::timestamp::Timestamp;

verus! {

/// One operational log entry. `agent_id` and `task_id` are the correlation
/// keys that follow an action from end to end.
#[derive(Debug)]
pub struct OpEntry {
    /// When the event happened, by the clock of whoever observed it.
    pub timestamp: Timestamp,
    pub level: String,
    pub source: String,
    pub message: String,
    pub agent_id: Option<String>,
    pub task_id: Option<String>,
    pub metadata: Option<serde_json::Value>,
}

/// An entry as contracts speak of it.
#[verifier::ext_equal]
pub struct OpEntryView {
    pub timestamp: Timestamp,
    pub level: Seq<char>,
    pub source: Seq<char>,
    pub message: Seq<char>,
    pub agent_id: Option<Seq<char>>,
    pub task_id: Option<Seq<char>>,
    pub metadata: Option<serde_json::Value>,
}

impl View for OpEntry {
    type V = OpEntryView;

    open spec fn view(&self) -> OpEntryView {
        OpEntryView {
            timestamp: self.timestamp,
            level: self.level@,
            source: self.source@,
            message: self.message@,
            agent_id: opt_text(self.agent_id),
            task_id: opt_text(self.task_id),
            metadata: self.metadata,
        }
    }
}

impl Clone for OpEntry {
    fn clone(&self) -> (r: Self)
        ensures
            r == *self,
    {
        OpEntry {
            timestamp: self.timestamp,
            level: self.level.clone(),
            source: self.source.clone(),
            message: self.message.clone(),
            agent_id: self.agent_id.clone(),
            task_id: self.task_id.clone(),
            metadata: copy_metadata(&self.metadata),
        }
    }
}

/// The views of a list of entries.
pub open spec fn entry_views(entries: Seq<OpEntry>) -> Seq<OpEntryView> {
    entries.map_values(|e: OpEntry| e@)
}

/// The last `n` of a list, or all of it where it has fewer.
pub open spec fn newest(entries: Seq<OpEntryView>, n: nat) -> Seq<OpEntryView> {
    if entries.len() <= n {
        entries
    } else {
        entries.skip(entries.len() - n)
    }
}

/// The first `n` of a list, or all of it where it has fewer.
pub open spec fn at_most(entries: Seq<OpEntryView>, n: nat) -> Seq<OpEntryView> {
    if entries.len() <= n {
        entries
    } else {
        entries.take(n as int)
    }
}

/// Filters for a query. Absent filters match everything.
#[derive(Debug)]
pub struct Query {
    pub agent_id: Option<String>,
    pub task_id: Option<String>,
    pub level: Option<String>,
    /// How many entries to return at most; zero stands for a hundred.
    pub limit: usize,
}

impl Default for Query {
    fn default() -> (r: Self)
        ensures
            r@ == (QueryView { agent_id: None, task_id: None, level: None, limit: 0 }),
    {
        Query { agent_id: None, task_id: None, level: None, limit: 0 }
    }
}

impl Clone for Query {
    fn clone(&self) -> (r: Self)
        ensures
            r == *self,
    {
        Query {
            agent_id: self.agent_id.clone(),
            task_id: self.task_id.clone(),
            level: self.level.clone(),
            limit: self.limit,
        }
    }
}

fn same_opt(a: &Option<String>, b: &Option<String>) -> (r: bool)
    ensures
        r == (opt_text(*a) == opt_text(*b)),
{
    match (a, b) {
        (Some(x), Some(y)) => *x == *y,
        (None, None) => true,
        _ => false,
    }
}

/// A query as contracts speak of it.
#[verifier::ext_equal]
pub struct QueryView {
    pub agent_id: Option<Seq<char>>,
    pub task_id: Option<Seq<char>>,
    pub level: Option<Seq<char>>,
    pub limit: nat,
}

impl View for Query {
    type V = QueryView;

    open spec fn view(&self) -> QueryView {
        QueryView {
            agent_id: opt_text(self.agent_id),
            task_id: opt_text(self.task_id),
            level: opt_text(self.level),
            limit: self.limit as nat,
        }
    }
}

impl QueryView {
    /// Whether an entry passes every filter that is set. Levels are compared
    /// up to the case of their ASCII letters.
    pub open spec fn accepts(self, e: OpEntryView) -> bool {
        &&& self.agent_id is Some ==> e.agent_id == self.agent_id
        &&& self.task_id is Some ==> e.task_id == self.task_id
        &&& self.level matches Some(level) ==> same_ignoring_ascii_case(e.level, level)
    }

    /// How many entries the query returns at most.
    pub open spec fn effective_limit(self) -> nat {
        if self.limit == 0 {
            100
        } else {
            self.limit
        }
    }

    /// What the query selects from entries that stand oldest first.
    pub open spec fn selects(self, entries: Seq<OpEntryView>) -> Seq<OpEntryView> {
        at_most(
            entries.reverse().filter(|e: OpEntryView| self.accepts(e)),
            self.effective_limit(),
        )
    }
}

impl Query {
    fn accepts_entry(&self, e: &OpEntry) -> (r: bool)
        ensures
            r == self@.accepts(e@),
    {
        (self.agent_id.is_none() || same_opt(&e.agent_id, &self.agent_id)) && (
        self.task_id.is_none() || same_opt(&e.task_id, &self.task_id)) && (match &self.level {
            Some(level) => eq_ignore_ascii_case(e.level.as_str(), level.as_str()),
            None => true,
        })
    }
}

/// Counters for the health endpoint.
#[derive(Debug)]
pub struct Stats {
    pub indexed_entries: usize,
    pub appended_since_boot: u64,
    pub active_segment: u64,
}

/// The log: which segment is being filled, how far, and the newest entries.
pub struct OpLog {
    entries_per_segment: usize,
    max_index_entries: usize,
    index: VecDeque<OpEntry>,
    active_id: u64,
    active_len: usize,
    tail_whole: bool,
    tail_known: bool,
    total_appended: u64,
}

/// The log as contracts speak of it.
#[verifier::ext_equal]
pub struct OpLogView {
    pub entries_per_segment: nat,
    pub max_index_entries: nat,
    /// The newest entries, oldest first.
    pub index: Seq<OpEntryView>,
    /// The segment that is open and takes the lines.
    pub active_id: u64,
    /// How many lines that segment has, where a fragment counts as one.
    pub active_len: nat,
    /// Whether that segment has no fragment of a line at its end.
    pub tail_whole: bool,
    /// Whether the log knows how that segment ends. After a write that failed
    /// it does not, until it was shown the file.
    pub tail_known: bool,
    pub total_appended: nat,
}

impl OpLogView {
    /// The index never outgrows its bound.
    pub open spec fn wf(self) -> bool {
        self.index.len() <= self.max_index_entries
    }

    /// Whether the active segment takes no further entry.
    pub open spec fn active_is_full(self) -> bool {
        self.active_len >= self.entries_per_segment
    }

    /// The log with a new, empty active segment.
    pub open spec fn rotated(self) -> OpLogView {
        OpLogView {
            active_id: (self.active_id + 1) as u64,
            active_len: 0,
            tail_whole: true,
            tail_known: true,
            ..self
        }
    }

    /// Whether the log can take one more entry: there is an id for the next
    /// segment where one is due, and the entry can be counted.
    pub open spec fn may_append(self) -> bool {
        &&& self.active_is_full() ==> self.active_id < u64::MAX
        &&& self.total_appended < u64::MAX
    }

    /// The log with room in its active segment.
    pub open spec fn with_room(self) -> OpLogView {
        if self.active_is_full() {
            self.rotated()
        } else {
            self
        }
    }

    /// The log after one more entry went to the active segment.
    pub open spec fn appended(self, e: OpEntryView) -> OpLogView {
        OpLogView {
            index: newest(self.index.push(e), self.max_index_entries),
            active_len: self.active_len + 1,
            tail_whole: true,
            total_appended: self.total_appended + 1,
            ..self
        }
    }

    /// The log once it was shown that the file of its active segment is this.
    pub open spec fn inspected(self, file: Seq<u8>) -> OpLogView {
        OpLogView {
            active_len: lines_of(file).len(),
            tail_whole: is_whole(file),
            tail_known: true,
            ..self
        }
    }

    /// The log as it begins to write, where the file of its active segment is
    /// this: the file is looked at only where its end is not known.
    pub open spec fn settled(self, file: Seq<u8>) -> OpLogView {
        if self.tail_known {
            self
        } else {
            self.inspected(file)
        }
    }
}

impl View for OpLog {
    type V = OpLogView;

    closed spec fn view(&self) -> OpLogView {
        OpLogView {
            entries_per_segment: self.entries_per_segment as nat,
            max_index_entries: self.max_index_entries as nat,
            index: entry_views(self.index@),
            active_id: self.active_id,
            active_len: self.active_len as nat,
            tail_whole: self.tail_whole,
            tail_known: self.tail_known,
            total_appended: self.total_appended as nat,
        }
    }
}

proof fn lemma_views_push(entries: Seq<OpEntry>, e: OpEntry)
    ensures
        entry_views(entries.push(e)) == entry_views(entries).push(e@),
{
    assert(entry_views(entries.push(e)) =~= entry_views(entries).push(e@));
}

/// What became of the last thing that an append asked for.
pub enum AppendEvent {
    /// Nothing was asked for yet.
    Begin,
    /// The file of the active segment is this.
    Inspected { file: Vec<u8> },
    /// The file of the active segment could not be read.
    InspectFailed,
    /// The segment is open, and lines go to it from now on.
    Opened,
    /// The segment could not be opened.
    OpenFailed,
    /// The line of this entry is on disk.
    Written(OpEntry),
    /// The disk refused the line, or took only a part of it.
    WriteFailed,
}

/// What an append asks for next.
pub enum AppendAction {
    /// Read the file of the active segment.
    Inspect,
    /// Open this segment.
    Open(u64),
    /// Write the entry to the open segment as one line, framed for a file that
    /// is `whole` or not.
    Write { whole: bool },
    /// Nothing: the entry is kept.
    Keep,
    /// Nothing: the entry is refused.
    Refuse,
}

impl OpLogView {
    /// The log after an event of an append.
    pub open spec fn after(self, event: AppendEvent) -> OpLogView {
        match event {
            AppendEvent::Begin => self,
            AppendEvent::Inspected { file } => self.inspected(file@),
            AppendEvent::InspectFailed => self,
            AppendEvent::Opened => self.rotated(),
            AppendEvent::OpenFailed => self,
            AppendEvent::Written(e) => self.appended(e@),
            AppendEvent::WriteFailed => OpLogView { tail_known: false, ..self },
        }
    }

    /// What an append asks for where the log knows how its segment ends: the
    /// next segment where this one is full, and else the line.
    pub open spec fn asks_first(self) -> AppendAction {
        if self.active_is_full() {
            AppendAction::Open((self.active_id + 1) as u64)
        } else {
            AppendAction::Write { whole: self.tail_whole }
        }
    }

    /// What an append asks for after an event.
    pub open spec fn asks(self, event: AppendEvent) -> AppendAction {
        match event {
            AppendEvent::Begin => if self.tail_known {
                self.asks_first()
            } else {
                AppendAction::Inspect
            },
            AppendEvent::Inspected { file } => self.inspected(file@).asks_first(),
            AppendEvent::InspectFailed => AppendAction::Refuse,
            AppendEvent::Opened => AppendAction::Write { whole: true },
            AppendEvent::OpenFailed => AppendAction::Refuse,
            AppendEvent::Written(_) => AppendAction::Keep,
            AppendEvent::WriteFailed => AppendAction::Refuse,
        }
    }

    /// Whether an event may come to pass: an append begins only where the log
    /// can take an entry, a segment is opened only where the active one is
    /// full, and a line is written only where it can be counted.
    pub open spec fn admits(self, event: AppendEvent) -> bool {
        match event {
            AppendEvent::Begin => self.tail_known ==> self.may_append(),
            AppendEvent::Inspected { file } => self.inspected(file@).may_append(),
            AppendEvent::InspectFailed => true,
            AppendEvent::Opened => self.active_is_full() && self.active_id < u64::MAX,
            AppendEvent::OpenFailed => true,
            AppendEvent::Written(_) => {
                &&& self.tail_known
                &&& self.active_len < usize::MAX
                &&& self.total_appended < u64::MAX
            },
            AppendEvent::WriteFailed => true,
        }
    }
}

impl OpLog {
    /// Whether an append may begin: the log can take one more entry, or has to
    /// look at its active segment first.
    pub fn may_append(&self) -> (r: bool)
        ensures
            r == (self@.tail_known ==> self@.may_append()),
    {
        !self.tail_known || ((self.active_len < self.entries_per_segment || self.active_id
            < u64::MAX) && self.total_appended < u64::MAX)
    }

    /// Whether the log can take one more entry where the file of its active
    /// segment is this.
    pub fn may_append_to(&self, file: &[u8]) -> (r: bool)
        ensures
            r == self@.inspected(file@).may_append(),
    {
        (count_lines(file) < self.entries_per_segment || self.active_id < u64::MAX)
            && self.total_appended < u64::MAX
    }

    fn first_request(&self) -> (r: AppendAction)
        requires
            self@.may_append(),
        ensures
            r == self@.asks_first(),
            r is Write ==> self@.active_len < usize::MAX,
    {
        if self.active_len >= self.entries_per_segment {
            AppendAction::Open(self.active_id + 1)
        } else {
            AppendAction::Write { whole: self.tail_whole }
        }
    }

    /// Takes the next step of an append.
    ///
    /// Where the active segment is full, the next one is to be opened, and it
    /// becomes the active one only once it is open. Then the line is to be
    /// written, and only what is on disk is counted and indexed, dropping the
    /// oldest entry of a full index: an entry that can be queried but would
    /// vanish on restart is a lie about durability.
    ///
    /// A write that failed may have left any part of its line. The next append
    /// starts with a look at the file, and goes on from what it finds there.
    pub fn append(&mut self, event: AppendEvent) -> (r: AppendAction)
        requires
            old(self)@.wf(),
            old(self)@.admits(event),
        ensures
            final(self)@ == old(self)@.after(event),
            final(self)@.wf(),
            r == old(self)@.asks(event),
            r is Write ==> final(self)@.active_len < usize::MAX,
            event matches AppendEvent::Written(e) ==> {
                &&& old(self)@.max_index_entries > 0 ==> final(self)@.index.last() == e@
                &&& final(self)@.index.is_suffix_of(old(self)@.index.push(e@))
            },
    {
        match event {
            AppendEvent::Begin => {
                if self.tail_known {
                    self.first_request()
                } else {
                    AppendAction::Inspect
                }
            },
            AppendEvent::Inspected { file } => {
                self.active_len = count_lines(file.as_slice());
                self.tail_whole = ends_whole(file.as_slice());
                self.tail_known = true;
                self.first_request()
            },
            AppendEvent::InspectFailed => AppendAction::Refuse,
            AppendEvent::Opened => {
                self.rotate();
                AppendAction::Write { whole: true }
            },
            AppendEvent::OpenFailed => AppendAction::Refuse,
            AppendEvent::Written(entry) => {
                self.index_entry(entry);
                AppendAction::Keep
            },
            AppendEvent::WriteFailed => {
                self.tail_known = false;
                AppendAction::Refuse
            },
        }
    }

    fn rotate(&mut self)
        requires
            old(self)@.active_id < u64::MAX,
        ensures
            final(self)@ == old(self)@.rotated(),
    {
        self.active_id = self.active_id + 1;
        self.active_len = 0;
        self.tail_whole = true;
        self.tail_known = true;
    }

    fn index_entry(&mut self, entry: OpEntry)
        requires
            old(self)@.wf(),
            old(self)@.active_len < usize::MAX,
            old(self)@.total_appended < u64::MAX,
        ensures
            final(self)@ == old(self)@.appended(entry@),
            final(self)@.wf(),
    {
        self.active_len = self.active_len + 1;
        self.tail_whole = true;
        self.total_appended = self.total_appended + 1;
        proof {
            lemma_views_push(self.index@, entry);
        }
        self.index.push_back(entry);
        let ghost pushed = self.index@;
        if self.index.len() > self.max_index_entries {
            let _ = self.index.pop_front();
        }
        proof {
            assert(entry_views(self.index@) =~= newest(
                entry_views(pushed),
                self.max_index_entries as nat,
            ));
        }
    }

    /// The entries of the index that match the query, newest first.
    pub fn query(&self, q: &Query) -> (r: Vec<OpEntry>)
        ensures
            entry_views(r@) == q@.selects(self@.index),
    {
        let limit: usize = if q.limit == 0 {
            100
        } else {
            q.limit
        };
        let ghost keep = |e: OpEntryView| q@.accepts(e);
        let ghost rev = self@.index.reverse();
        let n: usize = self.index.len();
        let mut i: usize = n;
        let mut out: Vec<OpEntry> = Vec::new();
        proof {
            assert(rev.take(0) =~= Seq::<OpEntryView>::empty());
            reveal(Seq::filter);
            assert(entry_views(out@) =~= rev.take(0).filter(keep));
        }
        while i > 0 && out.len() < limit
            invariant
                keep == (|e: OpEntryView| q@.accepts(e)),
                rev == self@.index.reverse(),
                n == self.index@.len(),
                i <= n,
                limit as nat == q@.effective_limit(),
                entry_views(out@) == rev.take(n - i).filter(keep),
                out@.len() <= limit,
            decreases i,
        {
            i = i - 1;
            let e: &OpEntry = &self.index[i];
            let ghost before = out@;
            proof {
                assert(rev[n - i - 1] == e@);
                assert(rev.take(n - i) =~= rev.take(n - i - 1).push(e@));
                assert(rev.take(n - i).drop_last() =~= rev.take(n - i - 1));
                reveal(Seq::filter);
            }
            if q.accepts_entry(e) {
                out.push(e.clone());
                proof {
                    lemma_views_push(before, *e);
                }
            }
        }
        proof {
            let seen = rev.take(n - i);
            let unseen = rev.skip(n - i);
            assert(rev =~= seen + unseen);
            Seq::filter_distributes_over_add(seen, unseen, keep);
            if i == 0 {
                assert(seen =~= rev);
            }
            assert(entry_views(out@).len() == out@.len());
            assert(entry_views(out@) =~= at_most(rev.filter(keep), limit as nat));
        }
        out
    }

    /// Counters for the health endpoint.
    pub fn stats(&self) -> (r: Stats)
        ensures
            r.indexed_entries == self@.index.len(),
            r.appended_since_boot == self@.total_appended,
            r.active_segment == self@.active_id,
    {
        Stats {
            indexed_entries: self.index.len(),
            appended_since_boot: self.total_appended,
            active_segment: self.active_id,
        }
    }
}

/// The views of what the lines of a segment were decoded to. A line that is
/// not a record stands as nothing.
pub open spec fn line_views(lines: Seq<Option<OpEntry>>) -> Seq<Option<OpEntryView>> {
    lines.map_values(
        |line: Option<OpEntry>|
            match line {
                Some(e) => Some(e@),
                None => None,
            },
    )
}

/// The records among the lines of a segment, in order.
pub open spec fn records(lines: Seq<Option<OpEntryView>>) -> Seq<OpEntryView> {
    lines.filter_map(|line: Option<OpEntryView>| line)
}

/// The entries of a segment, from what its lines were decoded to. A line that
/// could not be decoded is skipped: one torn write must not take the rest of
/// the history offline.
pub fn read_segment(lines: Vec<Option<OpEntry>>) -> (r: Vec<OpEntry>)
    ensures
        entry_views(r@) == records(line_views(lines@)),
{
    let ghost views = line_views(lines@);
    let ghost pick = |line: Option<OpEntryView>| line;
    let mut out: Vec<OpEntry> = Vec::new();
    proof {
        assert(views.take(0) =~= Seq::<Option<OpEntryView>>::empty());
        assert(entry_views(out@) =~= views.take(0).filter_map(pick));
    }
    for line in it: lines
        invariant
            it.seq() == lines@,
            views == line_views(lines@),
            pick == (|line: Option<OpEntryView>| line),
            entry_views(out@) == views.take(it.index() as int).filter_map(pick),
    {
        proof {
            views.lemma_filter_map_take_succ(pick, it.index() as int);
        }
        let ghost before = out@;
        if let Some(e) = line {
            out.push(e);
            proof {
                lemma_views_push(before, e);
                assert(views[it.index() as int] == Some(e@));
            }
        }
    }
    proof {
        assert(views.take(lines@.len() as int) =~= views);
    }
    out
}

/// A log that is being opened: its segments, of which the newest are read
/// first, and the entries read so far.
pub struct Replay {
    ids: Vec<u64>,
    unread: usize,
    index: VecDeque<OpEntry>,
    entries_per_segment: usize,
    max_index_entries: usize,
}

/// A log that is being opened, as contracts speak of it.
#[verifier::ext_equal]
pub struct ReplayView {
    /// All segments, oldest first.
    pub ids: Seq<u64>,
    /// How many of them, counted from the oldest, are not read yet.
    pub unread: nat,
    /// The newest entries of the segments that were read, oldest first.
    pub index: Seq<OpEntryView>,
    pub entries_per_segment: nat,
    pub max_index_entries: nat,
}

impl ReplayView {
    pub open spec fn wf(self) -> bool {
        &&& self.unread <= self.ids.len()
        &&& self.index.len() <= self.max_index_entries
    }

    /// Opening a log starts with every segment unread.
    pub open spec fn started(ids: Seq<u64>, per_segment: nat, bound: nat) -> ReplayView {
        ReplayView {
            ids,
            unread: ids.len(),
            index: Seq::empty(),
            entries_per_segment: per_segment,
            max_index_entries: bound,
        }
    }

    /// The segment to read next: the newest unread one, unless the index is
    /// full already.
    pub open spec fn next(self) -> Option<u64> {
        if self.unread > 0 && self.index.len() < self.max_index_entries {
            Some(self.ids[self.unread - 1])
        } else {
            None
        }
    }

    /// The entries of the next segment go before those read so far; the oldest
    /// are dropped where the index cannot hold all.
    pub open spec fn absorbed(self, segment: Seq<OpEntryView>) -> ReplayView {
        ReplayView {
            unread: (self.unread - 1) as nat,
            index: newest(segment + self.index, self.max_index_entries),
            ..self
        }
    }

    /// Whether the newest segment, whose file is `last`, takes no more.
    pub open spec fn newest_is_full(self, last: Seq<u8>) -> bool {
        self.ids.len() > 0 && lines_of(last).len() >= self.entries_per_segment
    }

    /// The opened log, where the file of the newest segment is `last`. That
    /// segment is resumed unless it is full.
    pub open spec fn resumed(self, last: Seq<u8>) -> OpLogView {
        OpLogView {
            entries_per_segment: self.entries_per_segment,
            max_index_entries: self.max_index_entries,
            index: self.index,
            active_id: if self.ids.len() == 0 {
                0
            } else if self.newest_is_full(last) {
                (self.ids.last() + 1) as u64
            } else {
                self.ids.last()
            },
            active_len: if self.ids.len() == 0 || self.newest_is_full(last) {
                0
            } else {
                lines_of(last).len()
            },
            tail_whole: if self.ids.len() == 0 || self.newest_is_full(last) {
                true
            } else {
                is_whole(last)
            },
            tail_known: true,
            total_appended: 0,
        }
    }
}

impl View for Replay {
    type V = ReplayView;

    closed spec fn view(&self) -> ReplayView {
        ReplayView {
            ids: self.ids@,
            unread: self.unread as nat,
            index: entry_views(self.index@),
            entries_per_segment: self.entries_per_segment as nat,
            max_index_entries: self.max_index_entries as nat,
        }
    }
}

impl OpLog {
    /// Starts to open the log whose directory holds files of these names.
    pub fn open(
        names: &Vec<String>,
        entries_per_segment: usize,
        max_index_entries: usize,
    ) -> (r: Replay)
        ensures
            r@ == ReplayView::started(
                ascending(segment_ids(text_views(names@))),
                entries_per_segment as nat,
                max_index_entries as nat,
            ),
            r@.wf(),
    {
        let ids: Vec<u64> = sorted_segments(names);
        let unread: usize = ids.len();
        let r = Replay {
            ids,
            unread,
            index: VecDeque::new(),
            entries_per_segment,
            max_index_entries,
        };
        proof {
            assert(entry_views(r.index@) =~= Seq::<OpEntryView>::empty());
        }
        r
    }
}

impl Replay {
    /// The segment to read next, newest first; none once the index is full or
    /// every segment was read: opening must not take the longer the older the
    /// log is.
    pub fn next_segment(&self) -> (r: Option<u64>)
        requires
            self@.wf(),
        ensures
            r == self@.next(),
    {
        if self.unread > 0 && self.index.len() < self.max_index_entries {
            Some(self.ids[self.unread - 1])
        } else {
            None
        }
    }

    /// Takes in the entries of the segment that was to be read next.
    pub fn absorb(&mut self, segment: Vec<OpEntry>)
        requires
            old(self)@.wf(),
            old(self)@.next() is Some,
        ensures
            final(self)@ == old(self)@.absorbed(entry_views(segment@)),
            final(self)@.wf(),
    {
        let mut rest: Vec<OpEntry> = segment;
        let ghost bound = self.max_index_entries as nat;
        let ghost goal = newest(entry_views(segment@) + entry_views(self.index@), bound);
        self.unread = self.unread - 1;
        while rest.len() > 0 && self.index.len() < self.max_index_entries
            invariant
                self.index@.len() <= self.max_index_entries,
                bound == self.max_index_entries,
                goal == newest(entry_views(rest@) + entry_views(self.index@), bound),
                self.ids == old(self).ids,
                self.unread == old(self).unread - 1,
                self.entries_per_segment == old(self).entries_per_segment,
                self.max_index_entries == old(self).max_index_entries,
            decreases rest@.len(),
        {
            let ghost before = rest@;
            let ghost index = self.index@;
            if let Some(e) = rest.pop() {
                self.index.push_front(e);
                proof {
                    assert(entry_views(before) + entry_views(index) =~= entry_views(rest@)
                        + entry_views(self.index@));
                }
            }
        }
        proof {
            assert(goal =~= entry_views(self.index@));
        }
    }

    /// The newest segment, whose file decides whether it is resumed.
    pub fn last_segment(&self) -> (r: Option<u64>)
        ensures
            self@.ids.len() == 0 ==> r is None,
            self@.ids.len() > 0 ==> r == Some(self@.ids.last()),
    {
        if self.ids.len() > 0 {
            Some(self.ids[self.ids.len() - 1])
        } else {
            None
        }
    }

    /// The opened log. `last` is the file of the newest segment; it is not
    /// looked at where there is no segment. A fragment at the end of that file
    /// counts as a line, and the next record will not be joined to it.
    pub fn resume(self, last: &[u8]) -> (r: OpLog)
        requires
            self@.wf(),
            self@.newest_is_full(last@) ==> self@.ids.last() < u64::MAX,
        ensures
            r@ == self@.resumed(last@),
            r@.wf(),
    {
        let mut active_id: u64 = 0;
        let mut active_len: usize = 0;
        let mut tail_whole: bool = true;
        if self.ids.len() > 0 {
            let newest: u64 = self.ids[self.ids.len() - 1];
            let len: usize = count_lines(last);
            if len >= self.entries_per_segment {
                active_id = newest + 1;
            } else {
                active_id = newest;
                active_len = len;
                tail_whole = ends_whole(last);
            }
        }
        OpLog {
            entries_per_segment: self.entries_per_segment,
            max_index_entries: self.max_index_entries,
            index: self.index,
            active_id,
            active_len,
            tail_whole,
            tail_known: true,
            total_appended: 0,
        }
    }
}

/// Whether a segment with these entries is expired: none of them is as new as
/// the cutoff. A segment without entries is expired too.
pub open spec fn is_expired(entries: Seq<OpEntryView>, cutoff: Timestamp) -> bool {
    forall|i: int| 0 <= i < entries.len() ==> (#[trigger] entries[i]).timestamp.precedes(cutoff)
}

fn expired(entries: &Vec<OpEntry>, cutoff: &Timestamp) -> (r: bool)
    ensures
        r == is_expired(entry_views(entries@), *cutoff),
{
    for i in 0..entries.len()
        invariant
            forall|k: int|
                0 <= k < i ==> (#[trigger] entry_views(entries@)[k]).timestamp.precedes(*cutoff),
    {
        if !entries[i].timestamp.is_before(cutoff) {
            proof {
                assert(!entry_views(entries@)[i as int].timestamp.precedes(*cutoff));
            }
            return false;
        }
    }
    true
}

/// The ids other than that of the active segment.
pub open spec fn other_ids(ids: Seq<u64>, active_id: u64) -> Seq<u64> {
    ids.filter(|id: u64| id != active_id)
}

/// A retention sweep: the segments to look at, and how many were removed.
pub struct Sweep {
    ids: Vec<u64>,
    judged: usize,
    removed: usize,
    cutoff: Timestamp,
}

/// A retention sweep, as contracts speak of it.
#[verifier::ext_equal]
pub struct SweepView {
    /// The segments that the sweep looks at, oldest first.
    pub ids: Seq<u64>,
    /// How many of them, counted from the oldest, were judged.
    pub judged: nat,
    /// How many of those were removed.
    pub removed: nat,
    pub cutoff: Timestamp,
}

impl SweepView {
    pub open spec fn wf(self) -> bool {
        self.removed <= self.judged <= self.ids.len()
    }

    /// The segment to judge next.
    pub open spec fn next(self) -> Option<u64> {
        if self.judged < self.ids.len() {
            Some(self.ids[self.judged as int])
        } else {
            None
        }
    }
}

impl View for Sweep {
    type V = SweepView;

    closed spec fn view(&self) -> SweepView {
        SweepView {
            ids: self.ids@,
            judged: self.judged as nat,
            removed: self.removed as nat,
            cutoff: self.cutoff,
        }
    }
}

impl OpLog {
    /// Starts a sweep over the directory whose files have these names, for
    /// segments whose entries are all older than `cutoff`. The active segment
    /// is left out.
    pub fn sweep_expired(&self, names: &Vec<String>, cutoff: Timestamp) -> (r: Sweep)
        ensures
            r@ == (SweepView {
                ids: other_ids(
                    ascending(segment_ids(text_views(names@))),
                    self@.active_id,
                ),
                judged: 0,
                removed: 0,
                cutoff,
            }),
            r@.wf(),
    {
        let all: Vec<u64> = sorted_segments(names);
        let mut ids: Vec<u64> = Vec::new();
        proof {
            reveal(Seq::filter);
            assert(all@.take(0) =~= Seq::<u64>::empty());
        }
        for i in 0..all.len()
            invariant
                ids@ == other_ids(all@.take(i as int), self@.active_id),
        {
            proof {
                reveal(Seq::filter);
                assert(all@.take(i + 1).drop_last() =~= all@.take(i as int));
            }
            if all[i] != self.active_id {
                ids.push(all[i]);
            }
        }
        proof {
            assert(all@.take(all@.len() as int) =~= all@);
        }
        Sweep { ids, judged: 0, removed: 0, cutoff }
    }
}

impl Sweep {
    /// The segment to read and judge next.
    pub fn next_segment(&self) -> (r: Option<u64>)
        ensures
            r == self@.next(),
    {
        if self.judged < self.ids.len() {
            Some(self.ids[self.judged])
        } else {
            None
        }
    }

    /// Judges the next segment by its entries: whether to remove its file.
    pub fn judge(&mut self, entries: &Vec<OpEntry>) -> (r: bool)
        requires
            old(self)@.wf(),
            old(self)@.next() is Some,
        ensures
            r == is_expired(entry_views(entries@), old(self)@.cutoff),
            final(self)@ == (SweepView { judged: old(self)@.judged + 1, ..old(self)@ }),
            final(self)@.wf(),
    {
        proof {
            assert(self.judged < self.ids.len());
        }
        self.judged = self.judged + 1;
        expired(entries, &self.cutoff)
    }

    /// Counts a judged segment whose file was removed.
    pub fn note_removed(&mut self)
        requires
            old(self)@.removed < old(self)@.judged,
        ensures
            final(self)@ == (SweepView { removed: old(self)@.removed + 1, ..old(self)@ }),
            old(self)@.wf() ==> final(self)@.wf(),
    {
        self.removed = self.removed + 1;
    }

    /// How many segments were removed.
    pub fn removed(&self) -> (r: usize)
        ensures
            r == self@.removed,
    {
        self.removed
    }
}

/// The newest entry of the index is a query's first answer, where it matches.
pub proof fn law_newest_entry_is_first_answer(index: Seq<OpEntryView>, q: QueryView)
    requires
        index.len() > 0,
        q.accepts(index.last()),
    ensures
        q.selects(index).len() > 0,
        q.selects(index)[0] == index.last(),
{
    let e = index.last();
    let keep = |x: OpEntryView| q.accepts(x);
    let rev = index.reverse();
    let rest = rev.skip(1);
    assert(rev[0] == e);
    assert(rev =~= seq![e] + rest);
    Seq::filter_distributes_over_add(seq![e], rest, keep);
    reveal(Seq::filter);
    assert(seq![e].drop_last() =~= Seq::<OpEntryView>::empty());
    assert(seq![e].last() == e);
    assert(seq![e].filter(keep) =~= seq![e]) by {
        reveal_with_fuel(Seq::filter, 2);
    }
}

/// An entry that matches a query is the query's first answer right after it
/// was appended.
pub proof fn law_append_is_first_answer(log: OpLogView, e: OpEntryView, q: QueryView)
    requires
        log.max_index_entries > 0,
        q.accepts(e),
    ensures
        q.selects(log.with_room().appended(e).index).len() > 0,
        q.selects(log.with_room().appended(e).index)[0] == e,
{
    assert(log.with_room().appended(e).index.last() == e);
    law_newest_entry_is_first_answer(log.with_room().appended(e).index, q);
}

/// A query answers with entries of the index that pass its filters, no more
/// than its limit, and leaves out none that pass while it has room.
pub proof fn law_query_answers_match(index: Seq<OpEntryView>, q: QueryView)
    ensures
        q.selects(index).len() <= q.effective_limit(),
        forall|i: int|
            0 <= i < q.selects(index).len() ==> q.accepts(#[trigger] q.selects(index)[i])
                && index.contains(q.selects(index)[i]),
        q.selects(index).len() < q.effective_limit() ==> forall|i: int|
            0 <= i < index.len() && q.accepts(#[trigger] index[i]) ==> q.selects(index).contains(
                index[i],
            ),
{
    let keep = |x: OpEntryView| q.accepts(x);
    let rev = index.reverse();
    let all = rev.filter(keep);
    assert forall|i: int| 0 <= i < q.selects(index).len() implies q.accepts(
        #[trigger] q.selects(index)[i],
    ) && index.contains(q.selects(index)[i]) by {
        let x = q.selects(index)[i];
        assert(all[i] == x);
        rev.lemma_filter_pred(keep, i);
        assert(all.contains(x));
        rev.lemma_filter_contains_rev(keep, x);
        let j = choose|j: int| 0 <= j < rev.len() && rev[j] == x;
        assert(index[index.len() - 1 - j] == x);
    }
    if q.selects(index).len() < q.effective_limit() {
        assert forall|i: int| 0 <= i < index.len() && q.accepts(#[trigger] index[i]) implies
            q.selects(index).contains(index[i]) by {
            assert(rev[index.len() - 1 - i] == index[i]);
            rev.lemma_filter_contains(keep, index.len() - 1 - i);
        }
    }
}

/// An entry in contracts shows every field of the entry.
pub proof fn law_entry_shows_its_fields(e: OpEntry)
    ensures
        e@.timestamp == e.timestamp,
        e@.level == e.level@,
        e@.source == e.source@,
        e@.message == e.message@,
        e@.agent_id is Some == e.agent_id is Some,
        e.agent_id matches Some(s) ==> e@.agent_id == Some(s@),
        e@.task_id is Some == e.task_id is Some,
        e.task_id matches Some(s) ==> e@.task_id == Some(s@),
        e@.metadata == e.metadata,
{
}

/// A query in contracts shows every field of the query.
pub proof fn law_query_shows_its_fields(q: Query)
    ensures
        q@.agent_id is Some == q.agent_id is Some,
        q.agent_id matches Some(s) ==> q@.agent_id == Some(s@),
        q@.task_id is Some == q.task_id is Some,
        q.task_id matches Some(s) ==> q@.task_id == Some(s@),
        q@.level is Some == q.level is Some,
        q.level matches Some(s) ==> q@.level == Some(s@),
        q@.limit == q.limit,
{
}

/// A list of entries in contracts has one entry for each of the list, in its
/// place. The same holds of decoded lines.
pub proof fn law_views_keep_their_places(entries: Seq<OpEntry>, lines: Seq<Option<OpEntry>>)
    ensures
        entry_views(entries).len() == entries.len(),
        forall|i: int|
            0 <= i < entries.len() ==> #[trigger] entry_views(entries)[i] == entries[i]@,
        line_views(lines).len() == lines.len(),
        forall|i: int|
            0 <= i < lines.len() ==> (#[trigger] line_views(lines)[i]) is Some == lines[i] is Some,
        forall|i: int|
            0 <= i < lines.len() && lines[i] is Some ==> #[trigger] line_views(lines)[i] == Some(
                lines[i]->0@,
            ),
{
}

/// Every answer to a query has the agent, the task and the level that the
/// query asks for, each where it is set, whichever others are set. Levels are
/// the same up to the case of letters from A to Z.
pub proof fn law_answers_pass_every_filter(index: Seq<OpEntryView>, q: QueryView, i: int)
    requires
        0 <= i < q.selects(index).len(),
    ensures
        q.agent_id matches Some(agent) ==> q.selects(index)[i].agent_id == Some(agent),
        q.task_id matches Some(task) ==> q.selects(index)[i].task_id == Some(task),
        q.level matches Some(level) ==> q.selects(index)[i].level.len() == level.len() && forall|
            k: int,
        |
            0 <= k < level.len() ==> {
                let a = #[trigger] q.selects(index)[i].level[k];
                let b = level[k];
                ||| a == b
                ||| 'A' <= a <= 'Z' && b as u32 == a as u32 + 32
                ||| 'A' <= b <= 'Z' && a as u32 == b as u32 + 32
            },
{
    law_query_answers_match(index, q);
    let e = q.selects(index)[i];
    assert(q.accepts(e));
    if let Some(level) = q.level {
        assert forall|k: int| 0 <= k < level.len() implies ({
            let a = #[trigger] e.level[k];
            let b = level[k];
            ||| a == b
            ||| 'A' <= a <= 'Z' && b as u32 == a as u32 + 32
            ||| 'A' <= b <= 'Z' && a as u32 == b as u32 + 32
        }) by {
            law_only_ascii_letters_lose_their_case(e.level[k], level[k]);
        }
    }
}

proof fn lemma_filter_front(
    front: OpEntryView,
    rest: Seq<OpEntryView>,
    keep: spec_fn(OpEntryView) -> bool,
)
    ensures
        keep(front) ==> (seq![front] + rest).filter(keep) == seq![front] + rest.filter(keep),
        !keep(front) ==> (seq![front] + rest).filter(keep) == rest.filter(keep),
{
    Seq::filter_distributes_over_add(seq![front], rest, keep);
    reveal_with_fuel(Seq::filter, 2);
    assert(seq![front].drop_last() =~= Seq::<OpEntryView>::empty());
    assert(seq![front].last() == front);
    if keep(front) {
        assert(seq![front].filter(keep) =~= seq![front]);
    } else {
        assert(seq![front].filter(keep) =~= Seq::<OpEntryView>::empty());
        assert(Seq::<OpEntryView>::empty() + rest.filter(keep) =~= rest.filter(keep));
    }
}

/// How the answers to a query change with a new entry: where it has the agent,
/// the task and the level that are asked for, it comes first and the others
/// follow as they were, up to the limit; else nothing changes. A log without
/// entries answers nothing.
pub proof fn law_answers_follow_the_index(index: Seq<OpEntryView>, e: OpEntryView, q: QueryView)
    ensures
        q.selects(Seq::empty()).len() == 0,
        ({
            let limit = if q.limit == 0 {
                100nat
            } else {
                q.limit
            };
            let passes = {
                &&& q.agent_id is None || q.agent_id == e.agent_id
                &&& q.task_id is None || q.task_id == e.task_id
                &&& q.level is None || (q.level->0.len() == e.level.len() && forall|k: int|
                    0 <= k < e.level.len() ==> {
                        let a = #[trigger] e.level[k];
                        let b = q.level->0[k];
                        ||| a == b
                        ||| 'A' <= a <= 'Z' && b as u32 == a as u32 + 32
                        ||| 'A' <= b <= 'Z' && a as u32 == b as u32 + 32
                    })
            };
            let before = q.selects(index);
            let after = q.selects(index.push(e));
            &&& !passes ==> after == before
            &&& passes ==> after.len() == if before.len() < limit {
                before.len() + 1
            } else {
                limit
            }
            &&& passes ==> after[0] == e
            &&& passes ==> forall|i: int| 1 <= i < after.len() ==> #[trigger] after[i] == before[i
                - 1]
        }),
{
    let keep = |x: OpEntryView| q.accepts(x);
    assert(Seq::<OpEntryView>::empty().reverse() =~= Seq::<OpEntryView>::empty());
    reveal(Seq::filter);
    assert(index.push(e).reverse() =~= seq![e] + index.reverse());
    lemma_filter_front(e, index.reverse(), keep);
    if let Some(level) = q.level {
        assert forall|k: int| 0 <= k < e.level.len() && level.len() == e.level.len() implies ((
        ascii_lower(#[trigger] e.level[k]) == ascii_lower(level[k]))
            <==> ({
            let a = e.level[k];
            let b = level[k];
            ||| a == b
            ||| 'A' <= a <= 'Z' && b as u32 == a as u32 + 32
            ||| 'A' <= b <= 'Z' && a as u32 == b as u32 + 32
        })) by {
            law_only_ascii_letters_lose_their_case(e.level[k], level[k]);
        }
    }
}

/// Setting a filter on a query never adds an answer: every answer to the
/// stricter query is one to the other, where neither reaches its limit.
pub proof fn law_a_filter_adds_no_answer(index: Seq<OpEntryView>, q: QueryView, strict: QueryView)
    requires
        q.agent_id is None || strict.agent_id == q.agent_id,
        q.task_id is None || strict.task_id == q.task_id,
        q.level is None || strict.level == q.level,
        q.selects(index).len() < if q.limit == 0 {
            100nat
        } else {
            q.limit
        },
    ensures
        forall|i: int|
            0 <= i < strict.selects(index).len() ==> q.selects(index).contains(
                #[trigger] strict.selects(index)[i],
            ),
{
    law_query_answers_match(index, q);
    law_query_answers_match(index, strict);
    assert forall|i: int| 0 <= i < strict.selects(index).len() implies q.selects(index).contains(
        #[trigger] strict.selects(index)[i],
    ) by {
        let e = strict.selects(index)[i];
        assert(index.contains(e));
        let k = choose|k: int| 0 <= k < index.len() && index[k] == e;
        assert(q.accepts(index[k]));
    }
}

/// An entry whose line was written is indexed, whatever it holds: it is the
/// last one of the index, behind the newest of those that were there, and it
/// is counted once. Nothing else of the log changes.
pub proof fn law_written_entry_is_indexed(log: OpLogView, e: OpEntry)
    requires
        log.index.len() <= log.max_index_entries,
    ensures
        ({
            let after = log.after(AppendEvent::Written(e));
            let dropped = log.index.len() + 1 - after.index.len();
            &&& after.index.len() == if log.index.len() < log.max_index_entries {
                log.index.len() + 1
            } else {
                log.max_index_entries
            }
            &&& log.max_index_entries > 0 ==> after.index[after.index.len() - 1] == e@
            &&& forall|i: int|
                0 <= i < after.index.len() - 1 ==> #[trigger] after.index[i] == log.index[i
                    + dropped]
            &&& after.total_appended == log.total_appended + 1
            &&& after.active_len == log.active_len + 1
            &&& after.tail_whole
            &&& after.tail_known == log.tail_known
            &&& after.active_id == log.active_id
            &&& after.entries_per_segment == log.entries_per_segment
            &&& after.max_index_entries == log.max_index_entries
        }),
{
}

/// What the other events of an append do to a log. None of them touches the
/// index or a count of entries. Only an opened segment changes which segment
/// is active, and it is empty; only a look at the file sets what is known of
/// its end, and only a failed write makes that unknown.
pub proof fn law_other_events_index_nothing(log: OpLogView, event: AppendEvent)
    requires
        !(event is Written),
        event is Opened ==> log.active_id < u64::MAX,
    ensures
        ({
            let after = log.after(event);
            &&& after.index == log.index
            &&& after.total_appended == log.total_appended
            &&& after.entries_per_segment == log.entries_per_segment
            &&& after.max_index_entries == log.max_index_entries
            &&& after.active_id == log.active_id + if event is Opened {
                1int
            } else {
                0int
            }
            &&& event is Opened ==> after.active_len == 0 && after.tail_whole && after.tail_known
            &&& event matches AppendEvent::Inspected { file } ==> after.active_len == lines_of(
                file@,
            ).len() && after.tail_known && after.tail_whole == (file@.len() == 0 || file@.last()
                == 10)
            &&& event is WriteFailed ==> !after.tail_known && after.active_len == log.active_len
                && after.tail_whole == log.tail_whole
            &&& event is Begin || event is OpenFailed || event is InspectFailed ==> after == log
        }),
{
}

/// What an append asks for. A log that does not know how its segment ends asks
/// to look first. A full segment takes no line, one with room takes the next.
/// Behind a whole file, and in a segment that was just opened, the line needs
/// no newline before it. What is written is kept, and what failed is refused.
pub proof fn law_append_asks_in_turn(log: OpLogView, event: AppendEvent)
    requires
        log.active_id < u64::MAX,
    ensures
        event is Begin && !log.tail_known ==> log.asks(event) is Inspect,
        event is Begin && log.tail_known && log.active_len >= log.entries_per_segment ==> log.asks(
            event,
        ) == AppendAction::Open((log.active_id + 1) as u64),
        event is Begin && log.tail_known && log.active_len < log.entries_per_segment ==> log.asks(
            event,
        ) == (AppendAction::Write { whole: log.tail_whole }),
        event matches AppendEvent::Inspected { file } ==> log.asks(event) == if lines_of(
            file@,
        ).len() >= log.entries_per_segment {
            AppendAction::Open((log.active_id + 1) as u64)
        } else {
            AppendAction::Write { whole: file@.len() == 0 || file@.last() == 10 }
        },
        event is Opened ==> log.asks(event) == (AppendAction::Write { whole: true }),
        event is Written ==> log.asks(event) is Keep,
        event is OpenFailed || event is InspectFailed || event is WriteFailed ==> log.asks(
            event,
        ) is Refuse,
{
}

/// An append is never turned away but for want of numbers: it may begin while
/// entries can be counted and there is an id for a segment that is due.
pub proof fn law_appends_are_admitted(log: OpLogView, event: AppendEvent)
    ensures
        log.may_append() <==> log.total_appended < u64::MAX && (log.active_len
            < log.entries_per_segment || log.active_id < u64::MAX),
        !log.tail_known ==> log.admits(AppendEvent::Begin),
        log.total_appended < u64::MAX && (log.active_len < log.entries_per_segment
            || log.active_id < u64::MAX) ==> log.admits(AppendEvent::Begin),
        event matches AppendEvent::Inspected { file } ==> (log.total_appended < u64::MAX && (
        lines_of(file@).len() < log.entries_per_segment || log.active_id < u64::MAX)
            ==> log.admits(event)),
        event is Opened && log.active_len >= log.entries_per_segment && log.active_id < u64::MAX
            ==> log.admits(event),
        event is Written && log.tail_known && log.active_len < usize::MAX && log.total_appended
            < u64::MAX ==> log.admits(event),
        event is OpenFailed || event is InspectFailed || event is WriteFailed ==> log.admits(event),
{
}

/// The log that an append reaches when all goes well, by the events that it
/// asks for one after the other. `file` is the file of the active segment,
/// which is looked at where the log asks for it.
pub open spec fn reached(log: OpLogView, file: Vec<u8>, e: OpEntry) -> OpLogView {
    let asked = log.asks(AppendEvent::Begin);
    let begun = log.after(AppendEvent::Begin);
    let shown = if asked is Inspect {
        begun.after(AppendEvent::Inspected { file })
    } else {
        begun
    };
    let asked = if asked is Inspect {
        begun.asks(AppendEvent::Inspected { file })
    } else {
        asked
    };
    let open = if asked is Open {
        shown.after(AppendEvent::Opened)
    } else {
        shown
    };
    open.after(AppendEvent::Written(e))
}

/// However an append goes, through a look at the file and through rotation or
/// not, its entry is the last one of the index then, behind the newest of
/// those that were there before, and the first answer to every query that asks
/// for its agent, its task and its level or leaves them open.
pub proof fn law_append_makes_its_entry_queryable(
    log: OpLogView,
    file: Vec<u8>,
    e: OpEntry,
    q: QueryView,
)
    requires
        log.index.len() <= log.max_index_entries,
        log.max_index_entries > 0,
    ensures
        ({
            let after = reached(log, file, e).index;
            &&& after.len() == if log.index.len() < log.max_index_entries {
                log.index.len() + 1
            } else {
                log.max_index_entries
            }
            &&& after.last() == e@
            &&& after == (log.index + seq![e@]).skip(log.index.len() + 1 - after.len())
            &&& (q.agent_id is None || q.agent_id == e@.agent_id) && (q.task_id is None
                || q.task_id == e@.task_id) && (q.level is None || q.level == Some(e@.level))
                ==> q.selects(after).len() > 0 && q.selects(after)[0] == e@
        }),
{
    let after = reached(log, file, e).index;
    assert(after =~= (log.index + seq![e@]).skip(log.index.len() + 1 - after.len()));
    let front = after.drop_last();
    assert(front.push(e@) =~= after);
    law_answers_follow_the_index(front, e@, q);
}

/// Decoded lines give their records in order: a line that is no record adds
/// nothing, and any other adds its record behind the rest.
pub proof fn law_records_are_the_decoded_lines(
    lines: Seq<Option<OpEntryView>>,
    line: Option<OpEntryView>,
)
    ensures
        records(Seq::empty()).len() == 0,
        line is None ==> records(lines.push(line)) == records(lines),
        line matches Some(e) ==> records(lines.push(line)) == records(lines).push(e),
{
    assert(lines.push(line).drop_last() =~= lines);
    if let Some(e) = line {
        assert(records(lines) + seq![e] =~= records(lines).push(e));
    }
}

/// Opening starts with all segments unread and none read, keeps its settings,
/// and reads the newest unread segment while the index has room.
pub proof fn law_replay_reads_newest_first(
    ids: Seq<u64>,
    per_segment: nat,
    bound: nat,
    r: ReplayView,
)
    requires
        r.unread <= r.ids.len(),
    ensures
        ({
            let start = ReplayView::started(ids, per_segment, bound);
            &&& start.ids == ids
            &&& start.unread == ids.len()
            &&& start.index.len() == 0
            &&& start.entries_per_segment == per_segment
            &&& start.max_index_entries == bound
        }),
        r.unread > 0 && r.index.len() < r.max_index_entries ==> r.next() == Some(
            r.ids[r.unread - 1],
        ),
        r.unread == 0 || r.index.len() >= r.max_index_entries ==> r.next() is None,
{
}

/// A segment that is read goes before what was read already, and only its
/// oldest entries are dropped where the index cannot hold all.
pub proof fn law_absorbing_keeps_the_newest(r: ReplayView, segment: Seq<OpEntryView>)
    requires
        r.unread > 0,
        r.index.len() <= r.max_index_entries,
    ensures
        ({
            let after = r.absorbed(segment);
            let all = segment + r.index;
            let dropped = all.len() - after.index.len();
            &&& after.index.len() == if all.len() <= r.max_index_entries {
                all.len()
            } else {
                r.max_index_entries
            }
            &&& forall|i: int|
                0 <= i < after.index.len() ==> #[trigger] after.index[i] == all[i + dropped]
            &&& after.unread == r.unread - 1
            &&& after.ids == r.ids
            &&& after.entries_per_segment == r.entries_per_segment
            &&& after.max_index_entries == r.max_index_entries
        }),
{
}

/// An opened log goes on with its newest segment where that has fewer lines
/// than it may, and else with a new one behind it; without any segment it
/// starts with number zero. It keeps what was read, and counts from zero.
pub proof fn law_resuming_goes_on_with_the_newest(r: ReplayView, last: Seq<u8>)
    requires
        r.ids.len() > 0 ==> r.ids.last() < u64::MAX,
    ensures
        ({
            let log = r.resumed(last);
            &&& log.index == r.index
            &&& log.entries_per_segment == r.entries_per_segment
            &&& log.max_index_entries == r.max_index_entries
            &&& log.total_appended == 0
            &&& log.tail_known
            &&& r.ids.len() == 0 ==> log.active_id == 0 && log.active_len == 0 && log.tail_whole
            &&& r.ids.len() > 0 && lines_of(last).len() < r.entries_per_segment ==> log.active_id
                == r.ids.last() && log.active_len == lines_of(last).len() && log.tail_whole == (
            last.len() == 0 || last.last() == 10)
            &&& r.ids.len() > 0 && lines_of(last).len() >= r.entries_per_segment ==> log.active_id
                == r.ids.last() + 1 && log.active_len == 0 && log.tail_whole
        }),
{
}

/// A segment is judged expired exactly where every one of its entries is older
/// than the cutoff, whatever else they hold.
pub proof fn law_expired_is_all_older(entries: Seq<OpEntryView>, cutoff: Timestamp)
    ensures
        is_expired(entries, cutoff) <==> (forall|i: int|
            0 <= i < entries.len() ==> {
                let at = (#[trigger] entries[i]).timestamp;
                at.secs < cutoff.secs || (at.secs == cutoff.secs && at.nanos < cutoff.nanos)
            }),
{
    if forall|i: int|
        0 <= i < entries.len() ==> {
            let at = (#[trigger] entries[i]).timestamp;
            at.secs < cutoff.secs || (at.secs == cutoff.secs && at.nanos < cutoff.nanos)
        } {
        assert forall|i: int| 0 <= i < entries.len() implies (
        #[trigger] entries[i]).timestamp.precedes(cutoff) by {}
    }
}

/// A sweep looks at every segment but the active one, in order, each as often
/// as it is listed, and takes them one after the other.
pub proof fn law_sweep_takes_all_but_the_active(
    ids: Seq<u64>,
    id: u64,
    active_id: u64,
    s: SweepView,
)
    ensures
        other_ids(Seq::empty(), active_id).len() == 0,
        id == active_id ==> other_ids(ids.push(id), active_id) == other_ids(ids, active_id),
        id != active_id ==> other_ids(ids.push(id), active_id) == other_ids(ids, active_id).push(
            id,
        ),
        s.judged < s.ids.len() ==> s.next() == Some(s.ids[s.judged as int]),
        s.judged >= s.ids.len() ==> s.next() is None,
{
    reveal(Seq::filter);
    assert(ids.push(id).drop_last() =~= ids);
}

} // verus!
