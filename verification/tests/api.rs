//! Requests to the event database.

use axum::http::{header, HeaderMap};
use linexus_logger::api::{
    authorized, authorized_by, constant_time_eq, found, ingest, query, stored, IngestBody,
    QueryParams, Reply,
};
use linexus_logger::audit::{AuditRecord, IngestEntry};

fn headers_reading(value: Option<&str>) -> HeaderMap {
    let mut h = HeaderMap::new();
    if let Some(v) = value {
        h.insert(header::AUTHORIZATION, v.parse().unwrap());
    }
    h
}

fn entry(message: &str) -> IngestEntry {
    IngestEntry {
        id: Some(message.into()),
        timestamp: Some("t".into()),
        agent_id: None,
        task_id: None,
        level: "info".into(),
        source: "test".into(),
        message: message.into(),
        metadata: None,
    }
}

fn record(message: &str) -> AuditRecord {
    entry(message).into_record()
}

#[test]
fn a_request_needs_the_bearer_token() {
    let token = Some("s3cret".to_string());
    assert!(authorized(&headers_reading(None), &None));
    assert!(authorized(&headers_reading(None), &Some(String::new())));
    assert!(!authorized(&headers_reading(None), &token));
    assert!(authorized(&headers_reading(Some("Bearer s3cret")), &token));
    assert!(authorized(&headers_reading(Some("Bearer  s3cret ")), &token));
    assert!(!authorized(&headers_reading(Some("bearer s3cret")), &token));
    assert!(!authorized(&headers_reading(Some("Bearer other")), &token));
    assert!(!authorized_by(Some("Bearer "), &token));
    assert!(!authorized_by(Some(""), &token));
}

#[test]
fn bearer_tokens_are_compared_whole() {
    assert!(constant_time_eq("abc", "abc"));
    assert!(!constant_time_eq("abc", "abx"));
    assert!(!constant_time_eq("abc", "abcd"));
    assert!(constant_time_eq("", ""));
}

#[test]
fn a_refused_request_stores_nothing() {
    let token = Some("s3cret".to_string());
    let reply = ingest(&headers_reading(None), &token, IngestBody::One(entry("a"))).err().unwrap();
    assert_eq!(reply.status(), 401);
    assert_eq!(reply.error(), Some("missing or invalid bearer token"));
    assert_eq!(reply.ingested(), None);
    let params = QueryParams { agent_id: None, task_id: None, limit: None };
    let reply = query(&headers_reading(None), &token, params).err().unwrap();
    assert!(matches!(reply, Reply::Unauthorized));
}

#[test]
fn an_accepted_request_is_a_batch() {
    let body = IngestBody::Many(vec![entry("a"), entry("b")]);
    let mut batch = ingest(&headers_reading(None), &None, body).ok().unwrap();
    let first = batch.next_row().unwrap().unwrap();
    assert_eq!(first[0], Some("a".to_string()));
    batch.note_stored();
    let second = batch.next_row().unwrap().unwrap();
    assert_eq!(second[6], Some("b".to_string()));
    batch.note_stored();
    assert!(batch.next_row().is_none());
    assert_eq!(batch.into_stored().len(), 2);
    let body = IngestBody::One(entry("c"));
    let mut batch = ingest(&headers_reading(None), &None, body).ok().unwrap();
    assert!(batch.next_row().is_some());
    assert_eq!(batch.into_stored().len(), 0);
}

#[test]
fn a_query_asks_for_a_hundred_by_default() {
    let params = |limit: Option<i64>| QueryParams {
        agent_id: Some("".into()),
        task_id: Some("t".into()),
        limit,
    };
    let q = query(&headers_reading(None), &None, params(None)).ok().unwrap();
    assert_eq!(q.agent_id, Some("".to_string()));
    assert_eq!(q.task_id, Some("t".to_string()));
    assert_eq!(q.limit, 100);
    let q = query(&headers_reading(None), &None, params(Some(-5))).ok().unwrap();
    assert_eq!(q.limit, -5);
    assert_eq!(q.bounded_limit(), 1);
}

#[test]
fn answers_carry_their_status() {
    let reply = stored(Ok(vec![record("a"), record("b")]));
    assert_eq!(reply.status(), 201);
    assert_eq!(reply.error(), None);
    assert_eq!(reply.ingested(), Some(2));
    let reply = found(Ok(vec![record("a")]));
    assert_eq!(reply.status(), 200);
    assert_eq!(reply.error(), None);
    assert_eq!(reply.ingested(), None);
    for reply in [stored(Err("disk".into())), found(Err("disk".into()))] {
        assert_eq!(reply.status(), 500);
        assert_eq!(reply.error(), Some("disk"));
        assert_eq!(reply.ingested(), None);
    }
}
