//! Operational events in a real database, which is kept in memory.

use std::str::FromStr;

use linexus_logger::audit::{
    default_level, default_source, insert_columns, insert_row, insert_sql, read_rows, AuditRecord,
    Batch, IngestEntry, LogQuery, StoredRow,
};
use serde_json::Value;
use sqlx::sqlite::{SqliteConnectOptions, SqlitePool, SqlitePoolOptions};
use sqlx::Row;

struct Store {
    pool: SqlitePool,
}

impl Store {
    async fn connect(url: &str) -> Store {
        let opts = SqliteConnectOptions::from_str(url).unwrap();
        let pool = SqlitePoolOptions::new().max_connections(1).connect_with(opts).await.unwrap();
        sqlx::query(
            "CREATE TABLE audit_logs (
                seq       INTEGER PRIMARY KEY AUTOINCREMENT,
                id        TEXT NOT NULL UNIQUE,
                ts        TEXT NOT NULL,
                agent_id  TEXT,
                task_id   TEXT,
                level     TEXT NOT NULL,
                source    TEXT NOT NULL,
                message   TEXT NOT NULL,
                metadata  TEXT
            )",
        )
        .execute(&pool)
        .await
        .unwrap();
        Store { pool }
    }

    async fn insert(&self, columns: Vec<Option<String>>) -> bool {
        let mut query = sqlx::query(insert_sql());
        for value in columns {
            query = query.bind(value);
        }
        query.execute(&self.pool).await.is_ok()
    }

    async fn ingest_many(&self, entries: Vec<IngestEntry>) -> Option<Vec<AuditRecord>> {
        let mut batch = Batch::new(entries);
        while let Some(row) = batch.next_row() {
            if !self.insert(row.unwrap()).await {
                return None;
            }
            batch.note_stored();
        }
        Some(batch.into_stored())
    }

    async fn ingest(&self, entry: IngestEntry) -> AuditRecord {
        self.ingest_many(vec![entry]).await.unwrap().remove(0)
    }

    async fn query(&self, q: &LogQuery) -> Vec<AuditRecord> {
        let sql = q.select_sql();
        let mut query = sqlx::query(&sql);
        for value in q.filters() {
            query = query.bind(value);
        }
        query = query.bind(q.bounded_limit());
        let rows = query.fetch_all(&self.pool).await.unwrap();
        let rows = rows
            .iter()
            .map(|row| StoredRow {
                id: row.get("id"),
                timestamp: row.get("ts"),
                agent_id: row.get("agent_id"),
                task_id: row.get("task_id"),
                level: row.get("level"),
                source: row.get("source"),
                message: row.get("message"),
                metadata: row.get("metadata"),
            })
            .collect();
        read_rows(rows)
    }
}

fn run<F: std::future::Future>(future: F) -> F::Output {
    tokio::runtime::Builder::new_current_thread().enable_all().build().unwrap().block_on(future)
}

fn entry(msg: &str, agent: Option<&str>) -> IngestEntry {
    IngestEntry {
        id: None,
        timestamp: None,
        agent_id: agent.map(String::from),
        task_id: None,
        level: "info".into(),
        source: "test".into(),
        message: msg.into(),
        metadata: None,
    }
}

fn asking(agent: Option<&str>, task: Option<&str>, limit: i64) -> LogQuery {
    LogQuery { agent_id: agent.map(String::from), task_id: task.map(String::from), limit }
}

#[test]
fn ingest_and_query_most_recent_first() {
    run(async {
        let store = Store::connect("sqlite::memory:").await;
        store.ingest(entry("first", Some("a1"))).await;
        store.ingest(entry("second", Some("a1"))).await;
        store.ingest(entry("other", Some("a2"))).await;

        let a1 = store
            .query(&LogQuery { agent_id: Some("a1".into()), task_id: None, limit: 10 })
            .await;
        assert_eq!(a1.len(), 2);
        assert_eq!(a1[0].message, "second");
        assert_eq!(a1[1].message, "first");

        let all = store.query(&LogQuery { agent_id: None, task_id: None, limit: 10 }).await;
        assert_eq!(all.len(), 3);
    });
}

#[test]
fn assigns_id_and_timestamp_when_absent() {
    run(async {
        let store = Store::connect("sqlite::memory:").await;
        let rec = store.ingest(entry("hi", None)).await;
        assert!(!rec.id.is_empty());
        assert!(!rec.timestamp.is_empty());
    });
}

#[test]
fn limit_is_respected() {
    run(async {
        let store = Store::connect("sqlite::memory:").await;
        for i in 0..5 {
            store.ingest(entry(&format!("m{i}"), Some("a1"))).await;
        }
        let got = store
            .query(&LogQuery { agent_id: Some("a1".into()), task_id: None, limit: 3 })
            .await;
        assert_eq!(got.len(), 3);
        assert_eq!(got[0].message, "m4");
    });
}

#[test]
fn a_stored_event_is_read_back() {
    run(async {
        let store = Store::connect("sqlite::memory:").await;
        let mut e = entry("m", Some("a1"));
        e.id = Some("id-1".into());
        e.timestamp = Some("2024-01-02T03:04:05Z".into());
        e.task_id = Some("t1".into());
        e.metadata = Some(Value::from(vec!["x", "y"]));
        let rec = store.ingest(e.clone()).await;
        assert_eq!(rec.id, "id-1");
        assert_eq!(rec.timestamp, "2024-01-02T03:04:05Z");
        let got = store.query(&asking(None, Some("t1"), 1)).await.remove(0);
        assert_eq!(got.id, rec.id);
        assert_eq!(got.timestamp, rec.timestamp);
        assert_eq!(got.agent_id, Some("a1".to_string()));
        assert_eq!(got.task_id, Some("t1".to_string()));
        assert_eq!(got.level, "info");
        assert_eq!(got.source, "test");
        assert_eq!(got.message, "m");
        assert_eq!(got.metadata, Some(Value::from(vec!["x", "y"])));
        assert_eq!(rec.clone().metadata, got.metadata);
        assert!(store.ingest_many(vec![e]).await.is_none(), "an id is stored once");
    });
}

#[test]
fn both_filters_apply() {
    run(async {
        let store = Store::connect("sqlite::memory:").await;
        for (agent, task) in [("a1", "t1"), ("a1", "t2"), ("a2", "t1")] {
            let mut e = entry(&format!("{agent}{task}"), Some(agent));
            e.task_id = Some(task.into());
            store.ingest(e).await;
        }
        let got = store.query(&asking(Some("a1"), Some("t1"), 10)).await;
        assert_eq!(got.len(), 1);
        assert_eq!(got[0].message, "a1t1");
        assert_eq!(store.query(&asking(None, Some("t1"), 10)).await.len(), 2);
        assert_eq!(store.query(&asking(None, None, 0)).await.len(), 1);
    });
}

#[test]
fn a_batch_is_stored_in_order() {
    run(async {
        let store = Store::connect("sqlite::memory:").await;
        let batch = vec![entry("a", None), entry("b", None), entry("c", None)];
        let recs = store.ingest_many(batch).await.unwrap();
        let messages: Vec<&str> = recs.iter().map(|r| r.message.as_str()).collect();
        assert_eq!(messages, vec!["a", "b", "c"]);
        assert!(recs[0].id != recs[1].id && recs[1].id != recs[2].id);
        let got = store.query(&asking(None, None, 10)).await;
        let messages: Vec<&str> = got.iter().map(|r| r.message.as_str()).collect();
        assert_eq!(messages, vec!["c", "b", "a"]);
        assert_eq!(store.ingest_many(vec![]).await.unwrap().len(), 0);
    });
}

#[test]
fn statements_name_the_set_filters() {
    let head = "SELECT id, ts, agent_id, task_id, level, source, message, metadata FROM audit_logs";
    let tail = " ORDER BY seq DESC LIMIT ?";
    assert_eq!(asking(None, None, 1).select_sql(), format!("{head}{tail}"));
    let by_agent = asking(Some("a"), None, 1);
    assert_eq!(by_agent.select_sql(), format!("{head} WHERE agent_id = ?{tail}"));
    assert_eq!(by_agent.filters(), vec!["a"]);
    let by_task = asking(None, Some("t"), 1);
    assert_eq!(by_task.select_sql(), format!("{head} WHERE task_id = ?{tail}"));
    assert_eq!(by_task.filters(), vec!["t"]);
    let by_both = asking(Some("a"), Some("t"), 1);
    assert_eq!(by_both.select_sql(), format!("{head} WHERE agent_id = ? AND task_id = ?{tail}"));
    assert_eq!(by_both.filters(), vec!["a", "t"]);
    for q in [asking(None, None, 1), by_agent, by_task, by_both] {
        assert_eq!(q.select_sql().matches('?').count(), q.clone().filters().len() + 1);
    }
    let columns = insert_row(&entry("m", None).into_record()).unwrap();
    assert_eq!(insert_sql().matches('?').count(), columns.len());
}

#[test]
fn stored_limits_are_clamped() {
    assert_eq!(LogQuery::default().bounded_limit(), 1);
    assert_eq!(asking(None, None, i64::MIN).bounded_limit(), 1);
    assert_eq!(asking(None, None, 1).bounded_limit(), 1);
    assert_eq!(asking(None, None, 500).bounded_limit(), 500);
    assert_eq!(asking(None, None, 1000).bounded_limit(), 1000);
    assert_eq!(asking(None, None, i64::MAX).bounded_limit(), 1000);
}

#[test]
fn defaults_of_a_submitted_event() {
    assert_eq!(default_level(), "info");
    assert_eq!(default_source(), "agent");
}

#[test]
fn new_ids_are_time_ordered_uuids() {
    let a = entry("a", None).into_record();
    let b = entry("b", None).into_record();
    for id in [&a.id, &b.id] {
        let parsed = uuid::Uuid::parse_str(id).unwrap();
        assert_eq!(parsed.get_version_num(), 7);
        assert_eq!(*id, parsed.to_string());
        assert_eq!(id.len(), 36);
        assert_eq!(id.as_bytes()[14], b'7');
        assert!(b"89ab".contains(&id.as_bytes()[19]));
    }
    assert!(a.id != b.id);
    let at = chrono::DateTime::parse_from_rfc3339(&a.timestamp).unwrap();
    assert!((chrono::Utc::now() - at.with_timezone(&chrono::Utc)).num_seconds().abs() < 60);
    assert!(a.timestamp.ends_with("+00:00"));
    let text = a.timestamp.as_bytes();
    assert!(matches!(text.len(), 25 | 29 | 32 | 35));
    for (place, mark) in [(4, b'-'), (7, b'-'), (10, b'T'), (13, b':'), (16, b':')] {
        assert_eq!(text[place], mark);
    }
}

#[test]
fn smaller_limits_give_prefixes() {
    run(async {
        let store = Store::connect("sqlite::memory:").await;
        for i in 0..4 {
            store.ingest(entry(&format!("m{i}"), Some("a1"))).await;
        }
        let mut answers: Vec<Vec<String>> = Vec::new();
        for limit in [-3, 0, 1, 2, 4, 1000, 1001] {
            let got = store.query(&asking(Some("a1"), None, limit)).await;
            answers.push(got.into_iter().map(|r| r.message).collect());
        }
        for pair in answers.windows(2) {
            assert!(pair[1].starts_with(&pair[0]));
        }
        assert_eq!(answers[0], answers[2]);
        assert_eq!(answers[2], vec!["m3"]);
        assert_eq!(answers[5], answers[6]);
    });
}

#[test]
fn ids_and_times_fill_in_only_where_absent() {
    let e = entry("m", None);
    let r = e.clone().into_record_with("fresh".into(), "now".into());
    assert_eq!((r.id.as_str(), r.timestamp.as_str()), ("fresh", "now"));
    let mut own = e;
    own.id = Some("".into());
    own.timestamp = Some("then".into());
    let r = own.clone().into_record_with("fresh".into(), "now".into());
    assert_eq!((r.id.as_str(), r.timestamp.as_str()), ("", "then"));
    let r = own.into_record();
    assert_eq!((r.id.as_str(), r.timestamp.as_str()), ("", "then"));
}

#[test]
fn columns_follow_the_statement() {
    let mut e = entry("msg", Some("a"));
    e.metadata = Some(Value::from(1.5));
    let rec = e.into_record_with("i".into(), "t".into());
    let text = |s: &str| Some(s.to_string());
    let expected = vec![
        text("i"),
        text("t"),
        text("a"),
        None,
        text("info"),
        text("test"),
        text("msg"),
        text("1.5"),
    ];
    assert_eq!(insert_row(&rec).unwrap(), expected);
    let mut without = expected;
    without[7] = None;
    assert_eq!(insert_columns(&rec, None), without);
}

fn row(metadata: Option<&str>) -> StoredRow {
    StoredRow {
        id: "i".into(),
        timestamp: "t".into(),
        agent_id: None,
        task_id: Some("k".into()),
        level: "l".into(),
        source: "s".into(),
        message: "m".into(),
        metadata: metadata.map(String::from),
    }
}

#[test]
fn context_that_is_no_json_is_left_out() {
    assert_eq!(row(None).into_record().metadata, None);
    assert_eq!(row(Some("{broken")).into_record().metadata, None);
    assert_eq!(row(Some("null")).into_record().metadata, Some(Value::Null));
    assert_eq!(row(Some(" [1] ")).into_record().metadata, Some(Value::from(vec![1])));
    let rec = row(None).into_record_with(Some(Value::from(true)));
    assert_eq!(rec.metadata, Some(Value::from(true)));
    assert_eq!(rec.task_id, Some("k".to_string()));
    assert_eq!(rec.agent_id, None);
}
