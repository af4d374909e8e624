//! What the event database promises, over a model of its table.
//!
//! The table is a list of rows in the order in which they were inserted; a row
//! is the list of its columns, in the order of the statement that inserts it.
//! A statement means what it says in SQL: the rows whose columns equal the
//! filters, the last inserted first, no more than the limit.

use vstd::prelude::*;

use crate::audit::{
    as_read_back, columns_of, law_stored_event_is_read_back, metadata_text, AuditRecordView,
    IngestEntryView, LogQuery, StoredRow,
};
use crate::http::clamped;
use crate::text::opt_text;

verus! {

/// Whether a row passes the conditions of a query's statement. A column that
/// is not set equals no filter.
pub open spec fn row_matches(row: Seq<Option<Seq<char>>>, q: LogQuery) -> bool {
    &&& q.agent_id is Some ==> row[2] == opt_text(q.agent_id)
    &&& q.task_id is Some ==> row[3] == opt_text(q.task_id)
}

/// The rows that pass the conditions of a query's statement, newest first.
pub open spec fn matching_rows(
    table: Seq<Seq<Option<Seq<char>>>>,
    q: LogQuery,
) -> Seq<Seq<Option<Seq<char>>>> {
    table.reverse().filter(|row: Seq<Option<Seq<char>>>| row_matches(row, q))
}

/// The rows that a query's statement gives, filled with its filters and its
/// limit.
pub open spec fn selected_rows(
    table: Seq<Seq<Option<Seq<char>>>>,
    q: LogQuery,
) -> Seq<Seq<Option<Seq<char>>>> {
    let all = matching_rows(table, q);
    let limit = clamped(q.limit as int, 1, 1000);
    if all.len() <= limit {
        all
    } else {
        all.take(limit)
    }
}

/// Of two queries that differ only in their limits, the one with the smaller
/// limit is answered with a prefix of the other's answer. Limits that are
/// taken as the same number are answered alike, and no answer has more than a
/// thousand events.
pub proof fn law_smaller_limit_gives_prefix(
    table: Seq<Seq<Option<Seq<char>>>>,
    q1: LogQuery,
    q2: LogQuery,
)
    requires
        opt_text(q1.agent_id) == opt_text(q2.agent_id),
        opt_text(q1.task_id) == opt_text(q2.task_id),
        clamped(q1.limit as int, 1, 1000) <= clamped(q2.limit as int, 1, 1000),
    ensures
        selected_rows(table, q1).is_prefix_of(selected_rows(table, q2)),
        clamped(q1.limit as int, 1, 1000) == clamped(q2.limit as int, 1, 1000) ==> selected_rows(
            table,
            q1,
        ) == selected_rows(table, q2),
        selected_rows(table, q2).len() <= 1000,
{
    let p = |row: Seq<Option<Seq<char>>>| row_matches(row, q1);
    let q = |row: Seq<Option<Seq<char>>>| row_matches(row, q2);
    assert(p =~= q);
    assert(matching_rows(table, q1) == matching_rows(table, q2));
    let a = selected_rows(table, q1);
    let b = selected_rows(table, q2);
    assert(a =~= b.subrange(0, a.len() as int));
}

/// Storing an event adds its row behind all others, which stay as they were,
/// and the next query without filters for one event is answered with it.
pub proof fn law_stored_row_is_newest(
    table: Seq<Seq<Option<Seq<char>>>>,
    row: Seq<Option<Seq<char>>>,
    q: LogQuery,
)
    requires
        q.limit == 1,
        row_matches(row, q),
    ensures
        table.push(row).take(table.len() as int) == table,
        selected_rows(table.push(row), q) == seq![row],
{
    let after = table.push(row);
    let keep = |r: Seq<Option<Seq<char>>>| row_matches(r, q);
    assert(after.take(table.len() as int) =~= table);
    assert(after.reverse() =~= seq![row] + table.reverse());
    Seq::filter_distributes_over_add(seq![row], table.reverse(), keep);
    assert(seq![row].filter(keep) =~= seq![row]) by {
        reveal(Seq::filter);
        assert(seq![row].drop_last() =~= Seq::<Seq<Option<Seq<char>>>>::empty());
        assert(seq![row].last() == row);
        reveal_with_fuel(Seq::filter, 2);
    }
    assert(selected_rows(after, q) =~= seq![row]);
}

/// An event that was submitted and stored is the first answer to a query that
/// it matches. It is read back as the record that was stored: it has what the
/// event said, and the event's own id and timestamp where it had them. Its
/// structured context is what its JSON text is read as, which is the context
/// itself wherever JSON keeps it.
pub proof fn law_ingested_event_is_read_back(
    table: Seq<Seq<Option<Seq<char>>>>,
    entry: IngestEntryView,
    record: AuditRecordView,
    q: LogQuery,
    row: StoredRow,
)
    requires
        entry.may_become(record),
        q.limit == 1,
        q.agent_id is Some ==> opt_text(q.agent_id) == record.agent_id,
        q.task_id is Some ==> opt_text(q.task_id) == record.task_id,
        selected_rows(
            table.push(columns_of(record, metadata_text(record.metadata))),
            q,
        ).contains(row.columns()),
    ensures
        selected_rows(
            table.push(columns_of(record, metadata_text(record.metadata))),
            q,
        ).len() == 1,
        row.event() == as_read_back(record),
        record.metadata is None ==> row.event() == record,
        as_read_back(record).metadata == record.metadata ==> row.event() == record,
        record.agent_id == entry.agent_id,
        record.task_id == entry.task_id,
        record.level == entry.level,
        record.source == entry.source,
        record.message == entry.message,
        record.metadata == entry.metadata,
        entry.id matches Some(id) ==> record.id == id,
        entry.timestamp matches Some(at) ==> record.timestamp == at,
{
    let columns = columns_of(record, metadata_text(record.metadata));
    assert(row_matches(columns, q));
    law_stored_row_is_newest(table, columns, q);
    law_stored_event_is_read_back(record, row);
}

} // verus!
