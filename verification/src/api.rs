//! HTTP surface of the event database: who may call, what a request asks for
//! and what it is answered.

use axum::http::HeaderMap;
use vstd::prelude::*;

use crate::audit::{
    ingest_views, AuditRecord, Batch, BatchView, IngestEntry, IngestEntryView, LogQuery,
};
use crate::headers::{authorization, authorization_of};
use crate::text::{
    law_prefix_and_rest_make_the_text, opt_str, opt_text, present, same_text, strip_prefix, trim, trimmed, without_prefix,
};

verus! {

/// Whether two tokens are the same.
pub fn constant_time_eq(a: &str, b: &str) -> (r: bool)
    ensures
        r == (a@ == b@),
{
    same_text(a, b)
}

/// Whether a request may pass: always where no token is expected, else only
/// where it presents that token.
pub open spec fn grants(authorization: Option<Seq<char>>, expected: Option<Seq<char>>) -> bool {
    match present(expected) {
        None => true,
        Some(token) => match authorization {
            Some(text) => match without_prefix(text, "Bearer "@) {
                Some(got) => trimmed(got) == token,
                None => false,
            },
            None => false,
        },
    }
}

/// Whether a request whose authorization header reads `authorization` may
/// pass.
pub fn authorized_by(authorization: Option<&str>, token: &Option<String>) -> (r: bool)
    ensures
        r == grants(opt_str(authorization), opt_text(*token)),
{
    let expected: &str = match token {
        Some(t) => t.as_str(),
        None => {
            return true;
        },
    };
    if expected.is_empty() {
        return true;
    }
    match authorization {
        Some(text) => match strip_prefix(text, "Bearer ") {
            Some(got) => constant_time_eq(trim(got), expected),
            None => false,
        },
        None => false,
    }
}

/// Whether a request with these headers may pass.
pub fn authorized(headers: &HeaderMap, token: &Option<String>) -> (r: bool)
    ensures
        r == grants(authorization_of(*headers), opt_text(*token)),
{
    authorized_by(authorization(headers), token)
}

/// What a request is answered.
#[derive(Debug)]
pub enum Reply {
    /// The bearer token is missing or wrong.
    Unauthorized,
    /// The database failed, with this message.
    Internal { message: String },
    /// Every event was stored; these are the stored events.
    Created { records: Vec<AuditRecord> },
    /// These events match the query.
    Found { records: Vec<AuditRecord> },
}

impl Reply {
    /// The HTTP status of the answer.
    pub fn status(&self) -> (r: u16)
        ensures
            r == match *self {
                Reply::Unauthorized => 401u16,
                Reply::Internal { .. } => 500u16,
                Reply::Created { .. } => 201u16,
                Reply::Found { .. } => 200u16,
            },
    {
        match self {
            Reply::Unauthorized => 401,
            Reply::Internal { .. } => 500,
            Reply::Created { .. } => 201,
            Reply::Found { .. } => 200,
        }
    }

    /// What the answer says under `error`, if it reports one.
    pub fn error(&self) -> (r: Option<&str>)
        ensures
            opt_str(r) == match *self {
                Reply::Unauthorized => Some("missing or invalid bearer token"@),
                Reply::Internal { message } => Some(message@),
                Reply::Created { .. } => None,
                Reply::Found { .. } => None,
            },
    {
        match self {
            Reply::Unauthorized => Some("missing or invalid bearer token"),
            Reply::Internal { message } => Some(message.as_str()),
            Reply::Created { .. } => None,
            Reply::Found { .. } => None,
        }
    }

    /// What the answer says under `ingested`, if it counts events.
    pub fn ingested(&self) -> (r: Option<usize>)
        ensures
            r == match *self {
                Reply::Created { records } => Some(records@.len() as usize),
                _ => None,
            },
    {
        match self {
            Reply::Created { records } => Some(records.len()),
            _ => None,
        }
    }
}

/// What is submitted in one request: an event, or an array of them.
#[derive(Debug)]
pub enum IngestBody {
    One(IngestEntry),
    Many(Vec<IngestEntry>),
}

/// The events of a request, in the order in which they were submitted.
pub open spec fn entries_of(body: IngestBody) -> Seq<IngestEntryView> {
    match body {
        IngestBody::One(e) => seq![e@],
        IngestBody::Many(entries) => ingest_views(entries@),
    }
}

/// Takes in a request to store events: refused where the token is missing or
/// wrong, and else a batch of its events, of which none is stored yet.
pub fn ingest(
    headers: &HeaderMap,
    token: &Option<String>,
    body: IngestBody,
) -> (r: Result<Batch, Reply>)
    ensures
        match r {
            Ok(batch) => {
                &&& grants(authorization_of(*headers), opt_text(*token))
                &&& batch@ == (BatchView {
                    pending: entries_of(body),
                    in_flight: None,
                    stored: Seq::empty(),
                })
            },
            Err(reply) => {
                &&& !grants(authorization_of(*headers), opt_text(*token))
                &&& reply is Unauthorized
            },
        },
{
    if !authorized(headers, token) {
        return Err(Reply::Unauthorized);
    }
    let entries: Vec<IngestEntry> = match body {
        IngestBody::One(e) => {
            let mut one: Vec<IngestEntry> = Vec::new();
            one.push(e);
            proof {
                assert(ingest_views(one@) =~= seq![e@]);
            }
            one
        },
        IngestBody::Many(entries) => entries,
    };
    Ok(Batch::new(entries))
}

/// The answer to a request to store events, by what became of its batch: the
/// stored events, or the message of the failure that ended it.
pub fn stored(outcome: Result<Vec<AuditRecord>, String>) -> (r: Reply)
    ensures
        r == match outcome {
            Ok(records) => Reply::Created { records },
            Err(message) => Reply::Internal { message },
        },
{
    match outcome {
        Ok(records) => Reply::Created { records },
        Err(message) => Reply::Internal { message },
    }
}

/// The parameters of a request for events.
#[derive(Debug)]
pub struct QueryParams {
    pub agent_id: Option<String>,
    pub task_id: Option<String>,
    pub limit: Option<i64>,
}

/// Takes in a request for events: refused where the token is missing or wrong,
/// and else the query that its parameters stand for, which asks for a hundred
/// events where they do not say.
pub fn query(
    headers: &HeaderMap,
    token: &Option<String>,
    params: QueryParams,
) -> (r: Result<LogQuery, Reply>)
    ensures
        match r {
            Ok(q) => {
                &&& grants(authorization_of(*headers), opt_text(*token))
                &&& q.agent_id == params.agent_id
                &&& q.task_id == params.task_id
                &&& q.limit == match params.limit {
                    Some(n) => n,
                    None => 100i64,
                }
            },
            Err(reply) => {
                &&& !grants(authorization_of(*headers), opt_text(*token))
                &&& reply is Unauthorized
            },
        },
{
    if !authorized(headers, token) {
        return Err(Reply::Unauthorized);
    }
    Ok(
        LogQuery {
            agent_id: params.agent_id,
            task_id: params.task_id,
            limit: match params.limit {
                Some(n) => n,
                None => 100,
            },
        },
    )
}

/// The answer to a request for events, by what the database gave: the events,
/// or the message of its failure.
pub fn found(outcome: Result<Vec<AuditRecord>, String>) -> (r: Reply)
    ensures
        r == match outcome {
            Ok(records) => Reply::Found { records },
            Err(message) => Reply::Internal { message },
        },
{
    match outcome {
        Ok(records) => Reply::Found { records },
        Err(message) => Reply::Internal { message },
    }
}

/// Without a token to expect, every request may pass.
pub proof fn law_open_without_token(authorization: Option<Seq<char>>)
    ensures
        grants(authorization, None),
        grants(authorization, Some(Seq::empty())),
{
}

/// With a token to expect, a request without an authorization header, or with
/// one of another scheme, may not pass.
pub proof fn law_closed_with_token(authorization: Option<Seq<char>>, token: Seq<char>)
    requires
        token.len() > 0,
        authorization matches Some(text) ==> without_prefix(text, "Bearer "@) is None,
    ensures
        !grants(authorization, Some(token)),
{
}

/// With a token to expect, a bearer header passes exactly where it carries
/// that token, whatever white space surrounds it.
pub proof fn law_only_the_token_opens(text: Seq<char>, token: Seq<char>)
    requires
        token.len() > 0,
    ensures
        grants(Some("Bearer "@ + text), Some(token)) <==> trimmed(text) == token,
{
    let header = "Bearer "@ + text;
    assert(header.take("Bearer "@.len() as int) =~= "Bearer "@);
    assert(header.skip("Bearer "@.len() as int) =~= text);
}

/// Who may pass: everyone where no token is expected or it is empty, and else
/// exactly those whose header is a bearer scheme and, without white space
/// around it, the token.
pub proof fn law_who_may_pass(authorization: Option<Seq<char>>, token: Seq<char>)
    ensures
        grants(authorization, None),
        token.len() == 0 ==> grants(authorization, Some(token)),
        token.len() > 0 && authorization is None ==> !grants(authorization, Some(token)),
        token.len() > 0 && authorization is Some ==> (grants(authorization, Some(token))
            <==> exists|rest: Seq<char>|
            authorization->0 == "Bearer "@ + rest && #[trigger] trimmed(
                rest,
            ) == token),
{
    if let Some(text) = authorization {
        if token.len() > 0 {
            if grants(authorization, Some(token)) {
                let rest = without_prefix(text, "Bearer "@)->0;
                law_prefix_and_rest_make_the_text(text, "Bearer "@, rest);
                assert(trimmed(rest) == token);
            }
            if exists|rest: Seq<char>| text == "Bearer "@ + rest && #[trigger] trimmed(rest) == token {
                let rest = choose|rest: Seq<char>|
                    text == "Bearer "@ + rest && #[trigger] trimmed(rest) == token;
                law_only_the_token_opens(rest, token);
            }
        }
    }
}

/// A request holds the events that were submitted, one for one, in their order.
pub proof fn law_request_is_its_events(e: IngestEntry, entries: Vec<IngestEntry>)
    ensures
        entries_of(IngestBody::One(e)).len() == 1,
        entries_of(IngestBody::One(e))[0] == e@,
        entries_of(IngestBody::Many(entries)).len() == entries@.len(),
        forall|i: int|
            0 <= i < entries@.len() ==> #[trigger] entries_of(IngestBody::Many(entries))[i]
                == entries@[i]@,
{
}

} // verus!
