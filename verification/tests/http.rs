//! Requests to the operational log.

use axum::http::{header, HeaderMap, HeaderValue};
use linexus_logger::http::{
    authorized, authorized_by, ingest, query_logs, token_eq, IngestAction, IngestBody, IngestEntry,
    IngestEvent, LogsQuery, Reply,
};
use linexus_logger::oplog::{AppendEvent, OpEntry, OpLog};
use linexus_logger::timestamp::Timestamp;
use serde_json::Value;

fn headers_with(token: Option<&str>) -> HeaderMap {
    let mut h = HeaderMap::new();
    if let Some(t) = token {
        h.insert(header::AUTHORIZATION, format!("Bearer {t}").parse().unwrap());
    }
    h
}

fn headers_reading(value: &str) -> HeaderMap {
    let mut h = HeaderMap::new();
    h.insert(header::AUTHORIZATION, value.parse().unwrap());
    h
}

fn shipped(message: &str) -> IngestEntry {
    IngestEntry {
        message: message.into(),
        level: None,
        source: None,
        agent_id: None,
        task_id: None,
        timestamp: None,
        metadata: None,
    }
}

fn log_of(count: u64) -> OpLog {
    let mut log = OpLog::open(&Vec::new(), 10_000, 50_000).resume(b"");
    for i in 0..count {
        log.append(AppendEvent::Begin);
        log.append(AppendEvent::Written(OpEntry {
            timestamp: Timestamp { secs: i as i64, nanos: 0 },
            level: "info".into(),
            source: "test".into(),
            message: format!("m{i}"),
            agent_id: Some(format!("a{}", i % 2)),
            task_id: None,
            metadata: None,
        }));
    }
    log
}

fn answered(
    headers: &HeaderMap,
    expected: &Option<String>,
    params: LogsQuery,
    log: &OpLog,
) -> Result<Vec<OpEntry>, Reply> {
    query_logs(headers, expected, params).map(|q| log.query(&q))
}

fn asking(limit: Option<usize>) -> LogsQuery {
    LogsQuery { agent_id: None, task_id: None, level: None, limit }
}

#[test]
fn open_when_no_token_configured() {
    assert!(authorized(&headers_with(None), &None));
    assert!(authorized(&headers_with(None), &Some(String::new())));
}

#[test]
fn closed_when_token_configured() {
    let expected = Some("s3cret".to_string());
    assert!(!authorized(&headers_with(None), &expected));
    assert!(!authorized(&headers_with(Some("wrong")), &expected));
    assert!(authorized(&headers_with(Some("s3cret")), &expected));
}

#[test]
fn ingest_defaults_are_filled() {
    let e = IngestEntry {
        message: "hello".into(),
        level: None,
        source: None,
        agent_id: Some(String::new()),
        task_id: None,
        timestamp: None,
        metadata: None,
    };
    let op = e.into_op();
    assert_eq!(op.level, "info");
    assert_eq!(op.source, "unknown");
    assert!(op.agent_id.is_none(), "empty string normalizes to absent");
}

#[test]
fn both_spellings_of_bearer_are_taken() {
    let expected = Some("s3cret".to_string());
    assert!(authorized(&headers_reading("bearer s3cret"), &expected));
    assert!(authorized(&headers_reading("Bearer   s3cret\t"), &expected));
    assert!(!authorized(&headers_reading("BEARER s3cret"), &expected));
    assert!(!authorized(&headers_reading("Basic s3cret"), &expected));
    assert!(!authorized(&headers_reading("Bearer s3cret2"), &expected));
    assert!(!authorized(&headers_reading("Bearer"), &expected));
    assert!(!authorized(&headers_reading("s3cret"), &expected));
}

#[test]
fn only_the_first_header_counts() {
    let expected = Some("s3cret".to_string());
    let mut h = headers_reading("Bearer wrong");
    h.append(header::AUTHORIZATION, HeaderValue::from_static("Bearer s3cret"));
    assert!(!authorized(&h, &expected));
    let mut h = headers_reading("Bearer s3cret");
    h.append(header::AUTHORIZATION, HeaderValue::from_static("Bearer wrong"));
    assert!(authorized(&h, &expected));
}

#[test]
fn a_header_that_is_no_text_is_refused() {
    let mut h = HeaderMap::new();
    h.insert(header::AUTHORIZATION, HeaderValue::from_bytes(b"Bearer s\xe9").unwrap());
    assert!(!authorized(&h, &Some("s\u{e9}".to_string())));
    assert!(authorized(&h, &None));
}

#[test]
fn a_token_with_outer_white_space_never_matches() {
    let expected = Some(" padded ".to_string());
    assert!(!authorized_by(Some("Bearer  padded "), &expected));
    assert!(authorized_by(Some("Bearer  padded "), &Some("padded".to_string())));
    assert!(authorized_by(Some("Bearer \u{2003}padded\u{3000}"), &Some("padded".to_string())));
}

#[test]
fn tokens_are_compared_whole() {
    assert!(token_eq("", ""));
    assert!(token_eq("abc\u{e9}", "abc\u{e9}"));
    assert!(!token_eq("abc", "abd"));
    assert!(!token_eq("abc", "ab"));
    assert!(!token_eq("", "a"));
    assert!(!token_eq("ABC", "abc"));
}

#[test]
fn a_supplied_timestamp_wins() {
    let now = Timestamp { secs: 2_000, nanos: 5 };
    assert_eq!(shipped("x").into_op_at(now).timestamp, now);
    let own = Timestamp { secs: -7, nanos: 999 };
    let mut e = shipped("x");
    e.timestamp = Some(own);
    assert_eq!(e.into_op_at(now).timestamp, own);
    let mut e = shipped("x");
    e.timestamp = Some(own);
    assert_eq!(e.into_op().timestamp, own);
}

#[test]
fn an_unstamped_entry_is_stamped_now() {
    let before = chrono::Utc::now().timestamp();
    let op = shipped("x").into_op();
    let after = chrono::Utc::now().timestamp();
    assert!(before <= op.timestamp.secs && op.timestamp.secs <= after);
    assert!(op.timestamp.nanos < 1_000_000_000);
}

#[test]
fn supplied_values_are_kept() {
    let e = IngestEntry {
        message: "".into(),
        level: Some("WARN".into()),
        source: Some("".into()),
        agent_id: Some("a".into()),
        task_id: Some("".into()),
        timestamp: None,
        metadata: Some(Value::from("m")),
    };
    let op = e.into_op();
    assert_eq!(op.message, "");
    assert_eq!(op.level, "WARN");
    assert_eq!(op.source, "unknown");
    assert_eq!(op.agent_id, Some("a".to_string()));
    assert_eq!(op.task_id, None);
    assert_eq!(op.metadata, Some(Value::from("m")));
}

fn next_message(action: IngestAction) -> String {
    match action {
        IngestAction::Append(e) => e.message,
        IngestAction::Answer(reply) => panic!("answered {reply:?}"),
    }
}

fn answer(action: IngestAction) -> Reply {
    match action {
        IngestAction::Append(e) => panic!("appends {}", e.message),
        IngestAction::Answer(reply) => reply,
    }
}

#[test]
fn a_batch_is_appended_in_order() {
    let body = IngestBody::Many(vec![shipped("a"), shipped("b"), shipped("c")]);
    let mut run = ingest(&headers_with(None), &None, body).ok().unwrap();
    assert_eq!(next_message(run.step(IngestEvent::Begin)), "a");
    assert_eq!(next_message(run.step(IngestEvent::Appended)), "b");
    assert_eq!(next_message(run.step(IngestEvent::Appended)), "c");
    let reply = answer(run.step(IngestEvent::Appended));
    assert_eq!(reply, Reply::Accepted { ingested: 3 });
    assert_eq!(reply.status(), 202);
    assert_eq!(reply.error(), None);
    assert_eq!(reply.ingested(), Some(3));
}

#[test]
fn one_entry_is_a_batch_of_one() {
    let mut run = ingest(&headers_with(None), &None, IngestBody::One(shipped("a"))).ok().unwrap();
    assert_eq!(next_message(run.step(IngestEvent::Begin)), "a");
    assert_eq!(answer(run.step(IngestEvent::Appended)), Reply::Accepted { ingested: 1 });
}

#[test]
fn an_empty_batch_is_accepted() {
    let mut run = ingest(&headers_with(None), &None, IngestBody::Many(vec![])).ok().unwrap();
    assert_eq!(answer(run.step(IngestEvent::Begin)), Reply::Accepted { ingested: 0 });
}

#[test]
fn a_refusing_disk_is_reported() {
    let body = IngestBody::Many(vec![shipped("a"), shipped("b"), shipped("c")]);
    let mut run = ingest(&headers_with(None), &None, body).ok().unwrap();
    assert_eq!(next_message(run.step(IngestEvent::Begin)), "a");
    assert_eq!(next_message(run.step(IngestEvent::Appended)), "b");
    let reply = answer(run.step(IngestEvent::AppendFailed));
    assert_eq!(reply, Reply::AppendFailed { ingested: 1 });
    assert_eq!(reply.status(), 507);
    assert_eq!(reply.error(), Some("append failed"));
    assert_eq!(reply.ingested(), Some(1));
}

#[test]
fn an_unauthorized_request_gets_nothing() {
    let expected = Some("s3cret".to_string());
    let refused = ingest(&headers_with(Some("no")), &expected, IngestBody::One(shipped("a")));
    let reply = refused.err().unwrap();
    assert_eq!(reply, Reply::Unauthorized);
    assert_eq!(reply.status(), 401);
    assert_eq!(reply.error(), Some("invalid or missing service token"));
    assert_eq!(reply.ingested(), None);
    let log = log_of(3);
    let refused = answered(&headers_with(None), &expected, asking(None), &log);
    assert_eq!(refused.err(), Some(Reply::Unauthorized));
    let granted = answered(&headers_with(Some("s3cret")), &expected, asking(None), &log);
    assert_eq!(granted.unwrap().len(), 3);
}

#[test]
fn limits_are_clamped() {
    let log = log_of(1200);
    let got = |limit: Option<usize>| {
        answered(&headers_with(None), &None, asking(limit), &log).unwrap().len()
    };
    assert_eq!(got(None), 100);
    assert_eq!(got(Some(0)), 1);
    assert_eq!(got(Some(1)), 1);
    assert_eq!(got(Some(7)), 7);
    assert_eq!(got(Some(1000)), 1000);
    assert_eq!(got(Some(1001)), 1000);
    assert_eq!(got(Some(usize::MAX)), 1000);
}

#[test]
fn empty_filters_are_no_filters() {
    let log = log_of(6);
    let params = LogsQuery {
        agent_id: Some("a1".into()),
        task_id: Some("".into()),
        level: Some("".into()),
        limit: None,
    };
    let got = answered(&headers_with(None), &None, params, &log).unwrap();
    let messages: Vec<&str> = got.iter().map(|e| e.message.as_str()).collect();
    assert_eq!(messages, vec!["m5", "m3", "m1"]);
    let q = LogsQuery { agent_id: Some("".into()), task_id: None, level: None, limit: Some(5) };
    let q = q.into_query();
    assert_eq!(q.agent_id, None);
    assert_eq!(q.limit, 5);
}
