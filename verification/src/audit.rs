//! Operational events in a database: what is stored of an event, and how it
//! is written and asked for.

use std::collections::VecDeque;

use vstd::prelude::*;

use crate::http::clamped;
use crate::ids::{fresh_id, is_uuid_v7};
use crate::json::{copy_metadata, json_text, json_value, read_json, write_json};
use crate::text::opt_text;
use crate::timestamp::{is_utc_text, utc_now_rfc3339};

verus! {

/// One stored operational event.
#[derive(Debug)]
pub struct AuditRecord {
    /// Assigned on ingest where the event came without one.
    pub id: String,
    /// When the event happened, as an RFC 3339 text.
    pub timestamp: String,
    pub agent_id: Option<String>,
    pub task_id: Option<String>,
    pub level: String,
    pub source: String,
    pub message: String,
    pub metadata: Option<serde_json::Value>,
}

/// A stored event as contracts speak of it.
#[verifier::ext_equal]
pub struct AuditRecordView {
    pub id: Seq<char>,
    pub timestamp: Seq<char>,
    pub agent_id: Option<Seq<char>>,
    pub task_id: Option<Seq<char>>,
    pub level: Seq<char>,
    pub source: Seq<char>,
    pub message: Seq<char>,
    pub metadata: Option<serde_json::Value>,
}

impl View for AuditRecord {
    type V = AuditRecordView;

    open spec fn view(&self) -> AuditRecordView {
        AuditRecordView {
            id: self.id@,
            timestamp: self.timestamp@,
            agent_id: opt_text(self.agent_id),
            task_id: opt_text(self.task_id),
            level: self.level@,
            source: self.source@,
            message: self.message@,
            metadata: self.metadata,
        }
    }
}

impl Clone for AuditRecord {
    fn clone(&self) -> (r: Self)
        ensures
            r == *self,
    {
        AuditRecord {
            id: self.id.clone(),
            timestamp: self.timestamp.clone(),
            agent_id: self.agent_id.clone(),
            task_id: self.task_id.clone(),
            level: self.level.clone(),
            source: self.source.clone(),
            message: self.message.clone(),
            metadata: copy_metadata(&self.metadata),
        }
    }
}

/// The views of a list of stored events.
pub open spec fn record_views(records: Seq<AuditRecord>) -> Seq<AuditRecordView> {
    records.map_values(|r: AuditRecord| r@)
}

/// An event as it is submitted. The id and the timestamp may be left out.
#[derive(Debug)]
pub struct IngestEntry {
    pub id: Option<String>,
    pub timestamp: Option<String>,
    pub agent_id: Option<String>,
    pub task_id: Option<String>,
    pub level: String,
    pub source: String,
    pub message: String,
    pub metadata: Option<serde_json::Value>,
}

/// A submitted event as contracts speak of it.
#[verifier::ext_equal]
pub struct IngestEntryView {
    pub id: Option<Seq<char>>,
    pub timestamp: Option<Seq<char>>,
    pub agent_id: Option<Seq<char>>,
    pub task_id: Option<Seq<char>>,
    pub level: Seq<char>,
    pub source: Seq<char>,
    pub message: Seq<char>,
    pub metadata: Option<serde_json::Value>,
}

impl View for IngestEntry {
    type V = IngestEntryView;

    open spec fn view(&self) -> IngestEntryView {
        IngestEntryView {
            id: opt_text(self.id),
            timestamp: opt_text(self.timestamp),
            agent_id: opt_text(self.agent_id),
            task_id: opt_text(self.task_id),
            level: self.level@,
            source: self.source@,
            message: self.message@,
            metadata: self.metadata,
        }
    }
}

impl Clone for IngestEntry {
    fn clone(&self) -> (r: Self)
        ensures
            r == *self,
    {
        IngestEntry {
            id: self.id.clone(),
            timestamp: self.timestamp.clone(),
            agent_id: self.agent_id.clone(),
            task_id: self.task_id.clone(),
            level: self.level.clone(),
            source: self.source.clone(),
            message: self.message.clone(),
            metadata: copy_metadata(&self.metadata),
        }
    }
}

/// The level of an event that names none.
pub fn default_level() -> (r: String)
    ensures
        r@ == "info"@,
{
    "info".to_owned()
}

/// The source of an event that names none.
pub fn default_source() -> (r: String)
    ensures
        r@ == "agent"@,
{
    "agent".to_owned()
}

impl IngestEntryView {
    /// What is stored of the event, with these where it lacks an id or a
    /// timestamp.
    pub open spec fn record_with(self, id: Seq<char>, timestamp: Seq<char>) -> AuditRecordView {
        AuditRecordView {
            id: match self.id {
                Some(own) => own,
                None => id,
            },
            timestamp: match self.timestamp {
                Some(own) => own,
                None => timestamp,
            },
            agent_id: self.agent_id,
            task_id: self.task_id,
            level: self.level,
            source: self.source,
            message: self.message,
            metadata: self.metadata,
        }
    }

    /// Whether the event may be stored as `r`, whatever id and time it is given
    /// where it lacks one.
    pub open spec fn may_become(self, r: AuditRecordView) -> bool {
        &&& r == self.record_with(r.id, r.timestamp)
        &&& self.id is None ==> is_uuid_v7(r.id)
        &&& self.timestamp is None ==> is_utc_text(r.timestamp)
    }
}

impl IngestEntry {
    /// What is stored of the event, with these where it lacks an id or a
    /// timestamp.
    pub fn into_record_with(self, id: String, timestamp: String) -> (r: AuditRecord)
        ensures
            r@ == self@.record_with(id@, timestamp@),
    {
        AuditRecord {
            id: match self.id {
                Some(own) => own,
                None => id,
            },
            timestamp: match self.timestamp {
                Some(own) => own,
                None => timestamp,
            },
            agent_id: self.agent_id,
            task_id: self.task_id,
            level: self.level,
            source: self.source,
            message: self.message,
            metadata: self.metadata,
        }
    }

    /// What is stored of the event: it is given a new id and the present time
    /// where it came without.
    pub fn into_record(self) -> (r: AuditRecord)
        ensures
            self@.may_become(r@),
    {
        let id: String = if self.id.is_some() {
            String::new()
        } else {
            fresh_id()
        };
        let timestamp: String = if self.timestamp.is_some() {
            String::new()
        } else {
            utc_now_rfc3339()
        };
        self.into_record_with(id, timestamp)
    }
}

/// Why an event cannot be handed to the database.
#[derive(Debug)]
pub enum AuditError {
    /// Its structured context cannot be written as JSON.
    Metadata(serde_json::Error),
}

/// The views of a list of optional texts.
pub open spec fn opt_views(values: Seq<Option<String>>) -> Seq<Option<Seq<char>>> {
    values.map_values(|v: Option<String>| opt_text(v))
}

/// The statement that stores an event.
pub fn insert_sql() -> (r: &'static str)
    ensures
        r@
            == "INSERT INTO audit_logs (id, ts, agent_id, task_id, level, source, message, metadata) VALUES (?, ?, ?, ?, ?, ?, ?, ?)"@,
{
    "INSERT INTO audit_logs (id, ts, agent_id, task_id, level, source, message, metadata) VALUES (?, ?, ?, ?, ?, ?, ?, ?)"
}

/// The values that go with `insert_sql`, column by column; `metadata` is the
/// JSON text of the structured context.
pub open spec fn columns_of(r: AuditRecordView, metadata: Option<Seq<char>>) -> Seq<
    Option<Seq<char>>,
> {
    seq![
        Some(r.id),
        Some(r.timestamp),
        r.agent_id,
        r.task_id,
        Some(r.level),
        Some(r.source),
        Some(r.message),
        metadata,
    ]
}

/// The values that go with `insert_sql`, where the structured context was
/// written as `metadata`.
pub fn insert_columns(record: &AuditRecord, metadata: Option<String>) -> (r: Vec<Option<String>>)
    ensures
        opt_views(r@) == columns_of(record@, opt_text(metadata)),
{
    let mut columns: Vec<Option<String>> = Vec::new();
    columns.push(Some(record.id.clone()));
    columns.push(Some(record.timestamp.clone()));
    columns.push(record.agent_id.clone());
    columns.push(record.task_id.clone());
    columns.push(Some(record.level.clone()));
    columns.push(Some(record.source.clone()));
    columns.push(Some(record.message.clone()));
    columns.push(metadata);
    proof {
        assert(opt_views(columns@) =~= columns_of(record@, opt_text(metadata)));
    }
    columns
}

/// Whether the structured context of an event, if it has any, can be written.
pub open spec fn is_writable(metadata: Option<serde_json::Value>) -> bool {
    match metadata {
        Some(value) => json_text(value) is Some,
        None => true,
    }
}

/// The JSON text of the structured context of an event, if it has any.
pub open spec fn metadata_text(metadata: Option<serde_json::Value>) -> Option<Seq<char>> {
    match metadata {
        Some(value) => json_text(value),
        None => None,
    }
}

/// The values that go with `insert_sql` for an event. Refused exactly where
/// the structured context cannot be written as JSON.
pub fn insert_row(record: &AuditRecord) -> (r: Result<Vec<Option<String>>, AuditError>)
    ensures
        match r {
            Ok(columns) => {
                &&& is_writable(record.metadata)
                &&& opt_views(columns@) == columns_of(record@, metadata_text(record.metadata))
                &&& columns@.len() == 8
                &&& columns@[7] is Some == record.metadata is Some
            },
            Err(_) => !is_writable(record.metadata),
        },
{
    let metadata: Option<String> = match &record.metadata {
        Some(value) => match write_json(value) {
            Ok(text) => Some(text),
            Err(e) => {
                return Err(AuditError::Metadata(e));
            },
        },
        None => None,
    };
    let columns: Vec<Option<String>> = insert_columns(record, metadata);
    proof {
        law_columns_keep_their_places(columns@);
        assert(opt_views(columns@).len() == 8);
        assert(opt_views(columns@)[7] is Some == columns@[7] is Some);
    }
    Ok(columns)
}

/// Submitted events that are being stored one by one.
pub struct Batch {
    pending: VecDeque<IngestEntry>,
    in_flight: Option<AuditRecord>,
    stored: Vec<AuditRecord>,
}

/// A batch as contracts speak of it.
#[verifier::ext_equal]
pub struct BatchView {
    /// The events that were not handed out yet, in order.
    pub pending: Seq<IngestEntryView>,
    /// What was handed out and is not known to be stored yet.
    pub in_flight: Option<AuditRecordView>,
    /// What was stored, in order.
    pub stored: Seq<AuditRecordView>,
}

/// The views of a list of submitted events.
pub open spec fn ingest_views(entries: Seq<IngestEntry>) -> Seq<IngestEntryView> {
    entries.map_values(|e: IngestEntry| e@)
}

impl View for Batch {
    type V = BatchView;

    closed spec fn view(&self) -> BatchView {
        BatchView {
            pending: ingest_views(self.pending@),
            in_flight: match self.in_flight {
                Some(r) => Some(r@),
                None => None,
            },
            stored: record_views(self.stored@),
        }
    }
}

impl BatchView {
    /// Whether this is a batch of these events, somewhere on its way: what is
    /// stored, then what is in flight, then what is pending are the events in
    /// the order in which they were submitted.
    pub open spec fn is_batch_of(self, entries: Seq<IngestEntryView>) -> bool {
        let out = self.stored + match self.in_flight {
            Some(r) => seq![r],
            None => Seq::empty(),
        };
        &&& out.len() + self.pending.len() == entries.len()
        &&& forall|i: int|
            0 <= i < out.len() ==> (#[trigger] entries[i]).may_become(out[i])
        &&& self.pending == entries.skip(out.len() as int)
    }
}

impl Batch {
    /// A batch of which nothing is stored yet.
    pub fn new(entries: Vec<IngestEntry>) -> (r: Self)
        ensures
            r@ == (BatchView {
                pending: ingest_views(entries@),
                in_flight: None,
                stored: Seq::empty(),
            }),
    {
        let mut pending: VecDeque<IngestEntry> = VecDeque::new();
        for e in it: entries
            invariant
                it.seq() == entries@,
                pending@ =~= entries@.take(it.index() as int),
        {
            pending.push_back(e);
        }
        let r = Batch { pending, in_flight: None, stored: Vec::new() };
        proof {
            assert(entries@.take(entries@.len() as int) =~= entries@);
            assert(record_views(r.stored@) =~= Seq::<AuditRecordView>::empty());
        }
        r
    }

    /// Hands out the next event as the values of its row; none once all were
    /// handed out. An event that cannot be written ends the batch.
    pub fn next_row(&mut self) -> (r: Option<Result<Vec<Option<String>>, AuditError>>)
        requires
            old(self)@.in_flight is None,
        ensures
            old(self)@.pending.len() == 0 ==> r is None && final(self)@ == old(self)@,
            old(self)@.pending.len() > 0 ==> {
                &&& final(self)@.pending == old(self)@.pending.drop_first()
                &&& final(self)@.stored == old(self)@.stored
                &&& final(self)@.in_flight matches Some(record)
                &&& old(self)@.pending[0].may_become(record)
                &&& r matches Some(row)
                &&& match row {
                    Ok(columns) => is_writable(record.metadata) && opt_views(columns@)
                        == columns_of(record, metadata_text(record.metadata)),
                    Err(_) => !is_writable(record.metadata),
                }
            },
    {
        let ghost waiting = self.pending@;
        match self.pending.pop_front() {
            Some(e) => {
                let record: AuditRecord = e.into_record();
                let row: Result<Vec<Option<String>>, AuditError> = insert_row(&record);
                self.in_flight = Some(record);
                proof {
                    assert(ingest_views(self.pending@) =~= ingest_views(waiting).drop_first());
                }
                Some(row)
            },
            None => None,
        }
    }

    /// Takes note that the event that was handed out last is stored.
    pub fn note_stored(&mut self)
        requires
            old(self)@.in_flight is Some,
        ensures
            final(self)@ == (BatchView {
                in_flight: None,
                stored: old(self)@.stored.push(old(self)@.in_flight->0),
                ..old(self)@
            }),
    {
        let ghost before = self.stored@;
        if let Some(record) = self.in_flight.take() {
            self.stored.push(record);
            proof {
                assert(record_views(self.stored@) =~= record_views(before).push(record@));
            }
        }
    }

    /// What was stored, in the order in which it was submitted.
    pub fn into_stored(self) -> (r: Vec<AuditRecord>)
        ensures
            record_views(r@) == self@.stored,
    {
        self.stored
    }
}

/// A new batch is a batch of its events.
pub proof fn law_new_batch_is_on_its_way(entries: Seq<IngestEntryView>)
    ensures
        (BatchView { pending: entries, in_flight: None, stored: Seq::empty() }).is_batch_of(
            entries,
        ),
{
    assert(entries.skip(0) =~= entries);
}

/// Handing out the next event keeps a batch on its way.
pub proof fn law_handing_out_keeps_order(
    before: BatchView,
    after: BatchView,
    entries: Seq<IngestEntryView>,
)
    requires
        before.is_batch_of(entries),
        before.in_flight is None,
        before.pending.len() > 0,
        after.pending == before.pending.drop_first(),
        after.stored == before.stored,
        after.in_flight matches Some(r) && before.pending[0].may_become(r),
    ensures
        after.is_batch_of(entries),
{
    let k = before.stored.len() as int;
    let out = before.stored + Seq::<AuditRecordView>::empty();
    assert(out =~= before.stored);
    let r = after.in_flight->0;
    assert(before.pending[0] == entries[k]);
    assert(after.pending =~= entries.skip(k + 1));
    assert forall|i: int| 0 <= i < k + 1 implies (#[trigger] entries[i]).may_become(
        (after.stored + seq![r])[i],
    ) by {
        if i < k {
            assert(out[i] == (after.stored + seq![r])[i]);
        }
    }
}

/// Storing what was handed out keeps a batch on its way.
pub proof fn law_storing_keeps_order(before: BatchView, entries: Seq<IngestEntryView>)
    requires
        before.is_batch_of(entries),
        before.in_flight is Some,
    ensures
        (BatchView {
            in_flight: None,
            stored: before.stored.push(before.in_flight->0),
            ..before
        }).is_batch_of(entries),
{
    let r = before.in_flight->0;
    assert(before.stored.push(r) + Seq::<AuditRecordView>::empty() =~= before.stored + seq![r]);
}

/// Once nothing is left of a batch, every event is stored, in the order in
/// which it was submitted.
pub proof fn law_batch_is_stored_in_order(batch: BatchView, entries: Seq<IngestEntryView>)
    requires
        batch.is_batch_of(entries),
        batch.in_flight is None,
        batch.pending.len() == 0,
    ensures
        batch.stored.len() == entries.len(),
        forall|i: int|
            0 <= i < entries.len() ==> (#[trigger] entries[i]).may_become(batch.stored[i]),
{
    let out = batch.stored + Seq::<AuditRecordView>::empty();
    assert(out =~= batch.stored);
}

/// Filters for a query. Absent filters are unconstrained.
#[derive(Debug)]
pub struct LogQuery {
    pub agent_id: Option<String>,
    pub task_id: Option<String>,
    pub limit: i64,
}

impl Default for LogQuery {
    fn default() -> (r: Self)
        ensures
            r.agent_id is None,
            r.task_id is None,
            r.limit == 0,
    {
        LogQuery { agent_id: None, task_id: None, limit: 0 }
    }
}

impl Clone for LogQuery {
    fn clone(&self) -> (r: Self)
        ensures
            r == *self,
    {
        LogQuery {
            agent_id: self.agent_id.clone(),
            task_id: self.task_id.clone(),
            limit: self.limit,
        }
    }
}

/// The condition part of the statement that asks for events.
pub open spec fn where_clause(by_agent: bool, by_task: bool) -> Seq<char> {
    if by_agent && by_task {
        " WHERE "@ + "agent_id = ?"@ + " AND "@ + "task_id = ?"@
    } else if by_agent {
        " WHERE "@ + "agent_id = ?"@
    } else if by_task {
        " WHERE "@ + "task_id = ?"@
    } else {
        Seq::empty()
    }
}

/// The statement that asks for events, newest first.
pub open spec fn select_statement(by_agent: bool, by_task: bool) -> Seq<char> {
    "SELECT id, ts, agent_id, task_id, level, source, message, metadata FROM audit_logs"@
        + where_clause(by_agent, by_task) + " ORDER BY seq DESC LIMIT ?"@
}

/// The texts that the statement's conditions are filled with, in order.
pub open spec fn filters_of(q: LogQuery) -> Seq<Seq<char>> {
    match (opt_text(q.agent_id), opt_text(q.task_id)) {
        (Some(a), Some(t)) => seq![a, t],
        (Some(a), None) => seq![a],
        (None, Some(t)) => seq![t],
        (None, None) => Seq::empty(),
    }
}

impl LogQuery {
    /// The statement that asks for the events that match.
    pub fn select_sql(&self) -> (r: String)
        ensures
            r@ == select_statement(self.agent_id is Some, self.task_id is Some),
    {
        let mut sql: String =
            "SELECT id, ts, agent_id, task_id, level, source, message, metadata FROM audit_logs".to_owned();
        let by_agent: bool = self.agent_id.is_some();
        let by_task: bool = self.task_id.is_some();
        if by_agent || by_task {
            sql.append(" WHERE ");
        }
        if by_agent {
            sql.append("agent_id = ?");
        }
        if by_agent && by_task {
            sql.append(" AND ");
        }
        if by_task {
            sql.append("task_id = ?");
        }
        sql.append(" ORDER BY seq DESC LIMIT ?");
        proof {
            assert(sql@ =~= select_statement(by_agent, by_task));
        }
        sql
    }

    /// The texts that the statement's conditions are filled with, in order.
    pub fn filters(&self) -> (r: Vec<String>)
        ensures
            crate::lines::text_views(r@) == filters_of(*self),
    {
        let mut out: Vec<String> = Vec::new();
        if let Some(a) = &self.agent_id {
            out.push(a.clone());
        }
        if let Some(t) = &self.task_id {
            out.push(t.clone());
        }
        proof {
            assert(crate::lines::text_views(out@) =~= filters_of(*self));
        }
        out
    }

    /// The number of events that are asked for: always one to a thousand.
    pub fn bounded_limit(&self) -> (r: i64)
        ensures
            r == clamped(self.limit as int, 1, 1000),
    {
        if self.limit < 1 {
            1
        } else if self.limit > 1000 {
            1000
        } else {
            self.limit
        }
    }
}

/// A row of the table of events, as the database hands it back.
#[derive(Debug)]
pub struct StoredRow {
    pub id: String,
    pub timestamp: String,
    pub agent_id: Option<String>,
    pub task_id: Option<String>,
    pub level: String,
    pub source: String,
    pub message: String,
    /// The structured context as JSON text.
    pub metadata: Option<String>,
}

impl StoredRow {
    /// The event that the row holds, where its structured context was read as
    /// `metadata`.
    pub open spec fn event_with(self, metadata: Option<serde_json::Value>) -> AuditRecordView {
        AuditRecordView {
            id: self.id@,
            timestamp: self.timestamp@,
            agent_id: opt_text(self.agent_id),
            task_id: opt_text(self.task_id),
            level: self.level@,
            source: self.source@,
            message: self.message@,
            metadata,
        }
    }

    /// The event that the row holds, where its structured context was read as
    /// `metadata`.
    pub fn into_record_with(self, metadata: Option<serde_json::Value>) -> (r: AuditRecord)
        ensures
            r@ == self.event_with(metadata),
    {
        AuditRecord {
            id: self.id,
            timestamp: self.timestamp,
            agent_id: self.agent_id,
            task_id: self.task_id,
            level: self.level,
            source: self.source,
            message: self.message,
            metadata,
        }
    }

    /// The event that the row holds. Structured context that is not JSON is
    /// left out.
    pub open spec fn event(self) -> AuditRecordView {
        self.event_with(
            match opt_text(self.metadata) {
                Some(text) => json_value(text),
                None => None,
            },
        )
    }

    /// The values of the row, column by column, in the order of `insert_sql`.
    pub open spec fn columns(self) -> Seq<Option<Seq<char>>> {
        seq![
            Some(self.id@),
            Some(self.timestamp@),
            opt_text(self.agent_id),
            opt_text(self.task_id),
            Some(self.level@),
            Some(self.source@),
            Some(self.message@),
            opt_text(self.metadata),
        ]
    }

    /// The event that the row holds. Structured context that is not JSON is
    /// left out.
    pub fn into_record(self) -> (r: AuditRecord)
        ensures
            r@ == self.event(),
    {
        let metadata: Option<serde_json::Value> = match &self.metadata {
            Some(text) => read_json(text.as_str()),
            None => None,
        };
        self.into_record_with(metadata)
    }
}

/// The events of the rows that the database handed back, in their order.
pub fn read_rows(rows: Vec<StoredRow>) -> (r: Vec<AuditRecord>)
    ensures
        record_views(r@) == rows@.map_values(|row: StoredRow| row.event()),
{
    let ghost events = rows@.map_values(|row: StoredRow| row.event());
    let mut out: Vec<AuditRecord> = Vec::new();
    for row in it: rows
        invariant
            it.seq() == rows@,
            events == rows@.map_values(|row: StoredRow| row.event()),
            out@.len() == it.index(),
            record_views(out@) =~= events.take(it.index() as int),
    {
        let ghost before = out@;
        out.push(row.into_record());
        proof {
            assert(record_views(out@) =~= record_views(before).push(row.event()));
        }
    }
    proof {
        assert(events.take(rows@.len() as int) =~= events);
    }
    out
}

/// A record as it is read back: its structured context, if it has any, is what
/// the JSON text that was written for it is read as.
pub open spec fn as_read_back(record: AuditRecordView) -> AuditRecordView {
    AuditRecordView {
        metadata: match metadata_text(record.metadata) {
            Some(text) => json_value(text),
            None => None,
        },
        ..record
    }
}

/// An event that was stored is read back: a row whose columns are those that
/// were inserted holds the same event, with its structured context as its JSON
/// text is read.
pub proof fn law_stored_event_is_read_back(record: AuditRecordView, row: StoredRow)
    requires
        row.columns() == columns_of(record, metadata_text(record.metadata)),
    ensures
        row.event() == as_read_back(record),
        as_read_back(record).metadata == record.metadata ==> row.event() == record,
{
    let written = columns_of(record, metadata_text(record.metadata));
    let read = row.columns();
    assert(read[0] == written[0]);
    assert(read[1] == written[1]);
    assert(read[2] == written[2]);
    assert(read[3] == written[3]);
    assert(read[4] == written[4]);
    assert(read[5] == written[5]);
    assert(read[6] == written[6]);
    assert(read[7] == written[7]);
    assert(row.event() =~= as_read_back(record));
}

/// How many values a statement has to be filled with.
pub open spec fn placeholders(statement: Seq<char>) -> nat {
    statement.filter(|c: char| c == '?').len()
}

proof fn lemma_placeholders_concat(a: Seq<char>, b: Seq<char>)
    ensures
        placeholders(a + b) == placeholders(a) + placeholders(b),
{
    Seq::filter_distributes_over_add(a, b, |c: char| c == '?');
}

proof fn lemma_no_placeholder(s: Seq<char>)
    requires
        forall|i: int| 0 <= i < s.len() ==> (#[trigger] s[i]) != '?',
    ensures
        placeholders(s) == 0,
    decreases s.len(),
{
    reveal(Seq::filter);
    if s.len() > 0 {
        let front = s.drop_last();
        assert forall|i: int| 0 <= i < front.len() implies (#[trigger] front[i]) != '?' by {
            assert(front[i] == s[i]);
        }
        lemma_no_placeholder(front);
        assert(s[s.len() - 1] != '?');
    }
}

proof fn lemma_last_placeholder(s: Seq<char>)
    requires
        s.len() > 0,
        s.last() == '?',
        forall|i: int| 0 <= i < s.len() - 1 ==> (#[trigger] s[i]) != '?',
    ensures
        placeholders(s) == 1,
{
    let front = s.drop_last();
    assert forall|i: int| 0 <= i < front.len() implies (#[trigger] front[i]) != '?' by {
        assert(front[i] == s[i]);
    }
    lemma_no_placeholder(front);
    reveal(Seq::filter);
}

/// A query's statement asks for exactly the values that the query provides:
/// its filters, and the limit after them.
pub proof fn law_every_placeholder_is_filled(q: LogQuery)
    ensures
        placeholders(select_statement(q.agent_id is Some, q.task_id is Some)) == filters_of(q).len()
            + 1,
{
    reveal_strlit(
        "SELECT id, ts, agent_id, task_id, level, source, message, metadata FROM audit_logs",
    );
    reveal_strlit(" WHERE ");
    reveal_strlit("agent_id = ?");
    reveal_strlit(" AND ");
    reveal_strlit("task_id = ?");
    reveal_strlit(" ORDER BY seq DESC LIMIT ?");
    let head =
        "SELECT id, ts, agent_id, task_id, level, source, message, metadata FROM audit_logs"@;
    let tail = " ORDER BY seq DESC LIMIT ?"@;
    let clause = where_clause(q.agent_id is Some, q.task_id is Some);
    lemma_no_placeholder(head);
    lemma_no_placeholder(" WHERE "@);
    lemma_no_placeholder(" AND "@);
    lemma_last_placeholder("agent_id = ?"@);
    lemma_last_placeholder("task_id = ?"@);
    lemma_last_placeholder(tail);
    lemma_no_placeholder(Seq::empty());
    lemma_placeholders_concat(" WHERE "@, "agent_id = ?"@);
    lemma_placeholders_concat(" WHERE "@, "task_id = ?"@);
    lemma_placeholders_concat(" WHERE "@ + "agent_id = ?"@, " AND "@);
    lemma_placeholders_concat(" WHERE "@ + "agent_id = ?"@ + " AND "@, "task_id = ?"@);
    lemma_placeholders_concat(head, clause);
    lemma_placeholders_concat(head + clause, tail);
}

/// A stored event in contracts shows every field of the event, and a list of
/// them has one for each of the list, in its place.
pub proof fn law_record_shows_its_fields(r: AuditRecord, records: Seq<AuditRecord>)
    ensures
        r@.id == r.id@,
        r@.timestamp == r.timestamp@,
        r@.agent_id is Some == r.agent_id is Some,
        r.agent_id matches Some(s) ==> r@.agent_id == Some(s@),
        r@.task_id is Some == r.task_id is Some,
        r.task_id matches Some(s) ==> r@.task_id == Some(s@),
        r@.level == r.level@,
        r@.source == r.source@,
        r@.message == r.message@,
        r@.metadata == r.metadata,
        record_views(records).len() == records.len(),
        forall|i: int|
            0 <= i < records.len() ==> #[trigger] record_views(records)[i] == records[i]@,
{
}

/// A submitted event in contracts shows every field of the event, and a list of
/// them has one for each of the list, in its place.
pub proof fn law_submitted_event_shows_its_fields(e: IngestEntry, entries: Seq<IngestEntry>)
    ensures
        e@.id is Some == e.id is Some,
        e.id matches Some(s) ==> e@.id == Some(s@),
        e@.timestamp is Some == e.timestamp is Some,
        e.timestamp matches Some(s) ==> e@.timestamp == Some(s@),
        e@.agent_id is Some == e.agent_id is Some,
        e.agent_id matches Some(s) ==> e@.agent_id == Some(s@),
        e@.task_id is Some == e.task_id is Some,
        e.task_id matches Some(s) ==> e@.task_id == Some(s@),
        e@.level == e.level@,
        e@.source == e.source@,
        e@.message == e.message@,
        e@.metadata == e.metadata,
        ingest_views(entries).len() == entries.len(),
        forall|i: int|
            0 <= i < entries.len() ==> #[trigger] ingest_views(entries)[i] == entries[i]@,
{
}

/// What was submitted is what is stored, field by field. Only an id or a time
/// that is absent is filled in, with a UUID of version seven and a time in UTC.
pub proof fn law_submitted_values_are_stored(
    e: IngestEntryView,
    id: Seq<char>,
    timestamp: Seq<char>,
    r: AuditRecordView,
)
    requires
        r == e.record_with(id, timestamp) || e.may_become(r),
    ensures
        r.agent_id == e.agent_id,
        r.task_id == e.task_id,
        r.level == e.level,
        r.source == e.source,
        r.message == e.message,
        r.metadata == e.metadata,
        e.id matches Some(own) ==> r.id == own,
        e.timestamp matches Some(own) ==> r.timestamp == own,
        r == e.record_with(id, timestamp) && e.id is None ==> r.id == id,
        r == e.record_with(id, timestamp) && e.timestamp is None ==> r.timestamp == timestamp,
        e.may_become(r) && e.id is None ==> is_uuid_v7(r.id),
        e.may_become(r) && e.timestamp is None ==> is_utc_text(r.timestamp),
{
}

/// The row of an event has its fields in the order of the statement that
/// inserts it. The last column is the JSON text of its structured context, and
/// is empty only where the event has none. A row is refused only where there is
/// no such text.
pub proof fn law_row_holds_every_field(r: AuditRecordView)
    ensures
        ({
            let row = columns_of(r, metadata_text(r.metadata));
            &&& row.len() == 8
            &&& row[0] == Some(r.id)
            &&& row[1] == Some(r.timestamp)
            &&& row[2] == r.agent_id
            &&& row[3] == r.task_id
            &&& row[4] == Some(r.level)
            &&& row[5] == Some(r.source)
            &&& row[6] == Some(r.message)
            &&& r.metadata matches Some(value) ==> row[7] == json_text(value)
            &&& r.metadata is None ==> row[7] is None
            &&& is_writable(r.metadata) && row[7] is None ==> r.metadata is None
        }),
        r.metadata is None ==> is_writable(r.metadata),
        r.metadata matches Some(value) ==> (is_writable(r.metadata) <==> json_text(value) is Some),
{
}

/// An event is read back with its structured context, where JSON keeps it: a
/// row with the columns that were inserted holds the event that was stored.
pub proof fn law_context_is_read_back(record: AuditRecordView, row: StoredRow)
    requires
        row.columns() == columns_of(record, metadata_text(record.metadata)),
        record.metadata matches Some(value) ==> json_text(value) is Some && json_value(
            json_text(value)->0,
        ) == Some(value),
    ensures
        row.event().metadata == record.metadata,
        row.event() == record,
{
    law_stored_event_is_read_back(record, row);
}

/// A row that the database hands back is read column by column, and structured
/// context is what its text is read as.
pub proof fn law_row_is_read_by_its_columns(row: StoredRow, metadata: Option<serde_json::Value>)
    ensures
        row.event().id == row.id@,
        row.event().timestamp == row.timestamp@,
        row.event().agent_id is Some == row.agent_id is Some,
        row.agent_id matches Some(s) ==> row.event().agent_id == Some(s@),
        row.event().task_id is Some == row.task_id is Some,
        row.task_id matches Some(s) ==> row.event().task_id == Some(s@),
        row.event().level == row.level@,
        row.event().source == row.source@,
        row.event().message == row.message@,
        row.metadata is None ==> row.event().metadata is None,
        row.metadata matches Some(s) ==> row.event().metadata == json_value(s@),
        row.event_with(metadata).metadata == metadata,
        row.event_with(row.event().metadata) == row.event(),
        row.event_with(metadata).id == row.id@,
        row.event_with(metadata).message == row.message@,
        row.columns().len() == 8,
        row.columns()[0] == Some(row.id@),
        row.columns()[1] == Some(row.timestamp@),
        row.columns()[2] == row.event().agent_id,
        row.columns()[3] == row.event().task_id,
        row.columns()[4] == Some(row.level@),
        row.columns()[5] == Some(row.source@),
        row.columns()[6] == Some(row.message@),
        row.columns()[7] is Some == row.metadata is Some,
        row.metadata matches Some(s) ==> row.columns()[7] == Some(s@),
{
}

/// The statements that ask for events, word for word: they differ only in the
/// conditions for the filters that are set.
pub proof fn law_statements_ask_by_the_set_filters()
    ensures
        select_statement(false, false)
            == "SELECT id, ts, agent_id, task_id, level, source, message, metadata FROM audit_logs ORDER BY seq DESC LIMIT ?"@,
        select_statement(true, false)
            == "SELECT id, ts, agent_id, task_id, level, source, message, metadata FROM audit_logs WHERE agent_id = ? ORDER BY seq DESC LIMIT ?"@,
        select_statement(false, true)
            == "SELECT id, ts, agent_id, task_id, level, source, message, metadata FROM audit_logs WHERE task_id = ? ORDER BY seq DESC LIMIT ?"@,
        select_statement(true, true)
            == "SELECT id, ts, agent_id, task_id, level, source, message, metadata FROM audit_logs WHERE agent_id = ? AND task_id = ? ORDER BY seq DESC LIMIT ?"@,
{
    reveal_strlit(
        "SELECT id, ts, agent_id, task_id, level, source, message, metadata FROM audit_logs",
    );
    reveal_strlit(" WHERE ");
    reveal_strlit("agent_id = ?");
    reveal_strlit(" AND ");
    reveal_strlit("task_id = ?");
    reveal_strlit(" ORDER BY seq DESC LIMIT ?");
    reveal_strlit(
        "SELECT id, ts, agent_id, task_id, level, source, message, metadata FROM audit_logs ORDER BY seq DESC LIMIT ?",
    );
    reveal_strlit(
        "SELECT id, ts, agent_id, task_id, level, source, message, metadata FROM audit_logs WHERE agent_id = ? ORDER BY seq DESC LIMIT ?",
    );
    reveal_strlit(
        "SELECT id, ts, agent_id, task_id, level, source, message, metadata FROM audit_logs WHERE task_id = ? ORDER BY seq DESC LIMIT ?",
    );
    reveal_strlit(
        "SELECT id, ts, agent_id, task_id, level, source, message, metadata FROM audit_logs WHERE agent_id = ? AND task_id = ? ORDER BY seq DESC LIMIT ?",
    );
    assert(select_statement(false, false)
        =~= "SELECT id, ts, agent_id, task_id, level, source, message, metadata FROM audit_logs ORDER BY seq DESC LIMIT ?"@);
    assert(select_statement(true, false)
        =~= "SELECT id, ts, agent_id, task_id, level, source, message, metadata FROM audit_logs WHERE agent_id = ? ORDER BY seq DESC LIMIT ?"@);
    assert(select_statement(false, true)
        =~= "SELECT id, ts, agent_id, task_id, level, source, message, metadata FROM audit_logs WHERE task_id = ? ORDER BY seq DESC LIMIT ?"@);
    assert(select_statement(true, true)
        =~= "SELECT id, ts, agent_id, task_id, level, source, message, metadata FROM audit_logs WHERE agent_id = ? AND task_id = ? ORDER BY seq DESC LIMIT ?"@);
}

/// The filters that are set fill the conditions in their order: the agent
/// first, then the task.
pub proof fn law_filters_fill_their_conditions(q: LogQuery)
    ensures
        q.agent_id is None && q.task_id is None ==> filters_of(q).len() == 0,
        q.agent_id matches Some(a) ==> filters_of(q).len() > 0 && filters_of(q)[0] == a@,
        q.agent_id is Some && q.task_id is None ==> filters_of(q).len() == 1,
        q.task_id matches Some(t) ==> filters_of(q).len() > 0 && filters_of(q)[filters_of(q).len()
            - 1] == t@,
        q.agent_id is None && q.task_id is Some ==> filters_of(q).len() == 1,
        q.agent_id is Some && q.task_id is Some ==> filters_of(q).len() == 2,
{
}

/// A list of optional texts in contracts has one item for each of the list, in
/// its place.
pub proof fn law_columns_keep_their_places(values: Seq<Option<String>>)
    ensures
        opt_views(values).len() == values.len(),
        forall|i: int|
            0 <= i < values.len() ==> (#[trigger] opt_views(values)[i]) is Some
                == values[i] is Some,
        forall|i: int|
            0 <= i < values.len() && values[i] is Some ==> #[trigger] opt_views(values)[i] == Some(
                values[i]->0@,
            ),
{
}

} // verus!
