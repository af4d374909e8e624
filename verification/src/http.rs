//! HTTP surface of the operational log: who may call, what a request asks for
//! and what it is answered.

use std::collections::VecDeque;

use axum::http::HeaderMap;
use vstd::prelude::*;

use crate::headers::{authorization, authorization_of};
use crate::oplog::{law_query_answers_match, OpEntry, OpEntryView, Query, QueryView};
use crate::text::{
    law_prefix_and_rest_make_the_text, non_empty, opt_str, opt_text, present, same_text, strip_prefix, trim, trimmed, without_prefix,
};
use crate::timestamp::{utc_now, Timestamp};

verus! {

/// Whether two tokens are the same.
pub fn token_eq(a: &str, b: &str) -> (r: bool)
    ensures
        r == (a@ == b@),
{
    same_text(a, b)
}

/// The token that the text of an authorization header presents.
pub open spec fn presented_token(text: Seq<char>) -> Option<Seq<char>> {
    match without_prefix(text, "Bearer "@) {
        Some(token) => Some(trimmed(token)),
        None => match without_prefix(text, "bearer "@) {
            Some(token) => Some(trimmed(token)),
            None => None,
        },
    }
}

/// Whether a request may pass: always where no token is expected, else only
/// where it presents that token.
pub open spec fn grants(authorization: Option<Seq<char>>, expected: Option<Seq<char>>) -> bool {
    match present(expected) {
        None => true,
        Some(token) => match authorization {
            Some(text) => presented_token(text) == Some(token),
            None => false,
        },
    }
}

/// Whether a request whose authorization header reads `authorization` may
/// pass.
pub fn authorized_by(authorization: Option<&str>, expected: &Option<String>) -> (r: bool)
    ensures
        r == grants(opt_str(authorization), opt_text(*expected)),
{
    let token: &str = match expected {
        Some(token) => token.as_str(),
        None => {
            return true;
        },
    };
    if token.is_empty() {
        return true;
    }
    match authorization {
        Some(text) => {
            let presented: Option<&str> = match strip_prefix(text, "Bearer ") {
                Some(rest) => Some(rest),
                None => strip_prefix(text, "bearer "),
            };
            match presented {
                Some(got) => token_eq(trim(got), token),
                None => false,
            }
        },
        None => false,
    }
}

/// Whether a request with these headers may pass.
pub fn authorized(headers: &HeaderMap, expected: &Option<String>) -> (r: bool)
    ensures
        r == grants(authorization_of(*headers), opt_text(*expected)),
{
    authorized_by(authorization(headers), expected)
}

/// What a request to the log is answered, where the answer is not a list of
/// entries.
#[derive(Debug, PartialEq, Eq, Structural)]
pub enum Reply {
    /// The service token is missing or wrong.
    Unauthorized,
    /// The disk refused an entry after this many were kept: history is no
    /// longer being written, and the caller must know.
    AppendFailed { ingested: usize },
    /// Every entry was kept.
    Accepted { ingested: usize },
}

impl Reply {
    /// The HTTP status of the answer.
    pub fn status(&self) -> (r: u16)
        ensures
            r == match *self {
                Reply::Unauthorized => 401u16,
                Reply::AppendFailed { .. } => 507u16,
                Reply::Accepted { .. } => 202u16,
            },
    {
        match self {
            Reply::Unauthorized => 401,
            Reply::AppendFailed { .. } => 507,
            Reply::Accepted { .. } => 202,
        }
    }

    /// What the answer says under `error`, if it reports one.
    pub fn error(&self) -> (r: Option<&'static str>)
        ensures
            opt_str(r) == match *self {
                Reply::Unauthorized => Some("invalid or missing service token"@),
                Reply::AppendFailed { .. } => Some("append failed"@),
                Reply::Accepted { .. } => None,
            },
    {
        match self {
            Reply::Unauthorized => Some("invalid or missing service token"),
            Reply::AppendFailed { .. } => Some("append failed"),
            Reply::Accepted { .. } => None,
        }
    }

    /// What the answer says under `ingested`, if it counts entries.
    pub fn ingested(&self) -> (r: Option<usize>)
        ensures
            r == match *self {
                Reply::Unauthorized => None,
                Reply::AppendFailed { ingested } => Some(ingested),
                Reply::Accepted { ingested } => Some(ingested),
            },
    {
        match self {
            Reply::Unauthorized => None,
            Reply::AppendFailed { ingested } => Some(*ingested),
            Reply::Accepted { ingested } => Some(*ingested),
        }
    }
}

/// An entry as it is shipped. Everything but the message may be left out, and
/// an entry without a timestamp is stamped when it is taken in: the shipper's
/// clock wins where it has one, because the shipper observed the event.
#[derive(Debug)]
pub struct IngestEntry {
    pub message: String,
    pub level: Option<String>,
    pub source: Option<String>,
    pub agent_id: Option<String>,
    pub task_id: Option<String>,
    pub timestamp: Option<Timestamp>,
    pub metadata: Option<serde_json::Value>,
}

/// A shipped entry as contracts speak of it.
#[verifier::ext_equal]
pub struct IngestEntryView {
    pub message: Seq<char>,
    pub level: Option<Seq<char>>,
    pub source: Option<Seq<char>>,
    pub agent_id: Option<Seq<char>>,
    pub task_id: Option<Seq<char>>,
    pub timestamp: Option<Timestamp>,
    pub metadata: Option<serde_json::Value>,
}

impl View for IngestEntry {
    type V = IngestEntryView;

    open spec fn view(&self) -> IngestEntryView {
        IngestEntryView {
            message: self.message@,
            level: opt_text(self.level),
            source: opt_text(self.source),
            agent_id: opt_text(self.agent_id),
            task_id: opt_text(self.task_id),
            timestamp: self.timestamp,
            metadata: self.metadata,
        }
    }
}

/// `value`, or `fallback` where it is absent or empty.
pub open spec fn text_or(value: Option<Seq<char>>, fallback: Seq<char>) -> Seq<char> {
    match present(value) {
        Some(text) => text,
        None => fallback,
    }
}

fn or_text(value: Option<String>, fallback: &str) -> (r: String)
    ensures
        r@ == text_or(opt_text(value), fallback@),
{
    match non_empty(value) {
        Some(text) => text,
        None => fallback.to_owned(),
    }
}

impl IngestEntryView {
    /// The log entry that this one becomes where the clock reads `now`.
    pub open spec fn op_at(self, now: Timestamp) -> OpEntryView {
        OpEntryView {
            timestamp: match self.timestamp {
                Some(t) => t,
                None => now,
            },
            level: text_or(self.level, "info"@),
            source: text_or(self.source, "unknown"@),
            message: self.message,
            agent_id: present(self.agent_id),
            task_id: present(self.task_id),
            metadata: self.metadata,
        }
    }

    /// Whether this entry may become `e`, whatever the clock reads.
    pub open spec fn may_become(self, e: OpEntryView) -> bool {
        &&& e == self.op_at(e.timestamp)
        &&& self.timestamp is None ==> e.timestamp.is_clock_reading()
    }
}

impl IngestEntry {
    /// The log entry that this one becomes where the clock reads `now`.
    pub fn into_op_at(self, now: Timestamp) -> (r: OpEntry)
        ensures
            r@ == self@.op_at(now),
    {
        OpEntry {
            timestamp: match self.timestamp {
                Some(t) => t,
                None => now,
            },
            level: or_text(self.level, "info"),
            source: or_text(self.source, "unknown"),
            message: self.message,
            agent_id: non_empty(self.agent_id),
            task_id: non_empty(self.task_id),
            metadata: self.metadata,
        }
    }

    /// The log entry that this one becomes, stamped now where it has no
    /// timestamp of its own.
    pub fn into_op(self) -> (r: OpEntry)
        ensures
            self@.may_become(r@),
    {
        self.into_op_at(utc_now())
    }
}

/// What is shipped in one request: an entry, or a batch of them.
#[derive(Debug)]
pub enum IngestBody {
    One(IngestEntry),
    Many(Vec<IngestEntry>),
}

/// The views of a list of shipped entries.
pub open spec fn ingest_views(entries: Seq<IngestEntry>) -> Seq<IngestEntryView> {
    entries.map_values(|e: IngestEntry| e@)
}

/// The entries of a request, in the order in which they were shipped.
pub open spec fn entries_of(body: IngestBody) -> Seq<IngestEntryView> {
    match body {
        IngestBody::One(e) => seq![e@],
        IngestBody::Many(entries) => ingest_views(entries@),
    }
}

impl IngestBody {
    fn into_entries(self) -> (r: Vec<IngestEntry>)
        ensures
            ingest_views(r@) == entries_of(self),
    {
        match self {
            IngestBody::One(e) => {
                let mut entries: Vec<IngestEntry> = Vec::new();
                entries.push(e);
                proof {
                    assert(ingest_views(entries@) =~= seq![e@]);
                }
                entries
            },
            IngestBody::Many(entries) => entries,
        }
    }
}

/// An accepted request whose entries are being appended one by one.
pub struct Ingestion {
    pending: VecDeque<IngestEntry>,
    in_flight: bool,
    ingested: usize,
}

/// An accepted request, as contracts speak of it.
#[verifier::ext_equal]
pub struct IngestionView {
    /// The entries that were not handed out yet, in order.
    pub pending: Seq<IngestEntryView>,
    /// Whether an entry was handed out and its fate is not known yet.
    pub in_flight: bool,
    /// How many entries were kept.
    pub ingested: nat,
}

/// What became of the entry that was handed out last.
pub enum IngestEvent {
    /// None was handed out yet.
    Begin,
    /// It is on disk.
    Appended,
    /// The disk refused it.
    AppendFailed,
}

/// What to do next.
pub enum IngestAction {
    /// Append this entry and report back.
    Append(OpEntry),
    /// Answer the request.
    Answer(Reply),
}

impl IngestionView {
    pub open spec fn wf(self) -> bool {
        self.ingested + self.pending.len() + if self.in_flight {
            1nat
        } else {
            0nat
        } <= usize::MAX
    }

    /// The request once all that is known of the entry in flight is counted.
    pub open spec fn settled(self, event: IngestEvent) -> IngestionView {
        IngestionView {
            in_flight: false,
            ingested: self.ingested + if event is Appended {
                1nat
            } else {
                0nat
            },
            ..self
        }
    }
}

impl View for Ingestion {
    type V = IngestionView;

    closed spec fn view(&self) -> IngestionView {
        IngestionView {
            pending: ingest_views(self.pending@),
            in_flight: self.in_flight,
            ingested: self.ingested as nat,
        }
    }
}

impl Ingestion {
    fn of(entries: Vec<IngestEntry>) -> (r: Ingestion)
        ensures
            r@ == (IngestionView {
                pending: ingest_views(entries@),
                in_flight: false,
                ingested: 0,
            }),
            r@.wf(),
    {
        let mut pending: VecDeque<IngestEntry> = VecDeque::new();
        for e in it: entries
            invariant
                it.seq() == entries@,
                pending@ =~= entries@.take(it.index() as int),
        {
            pending.push_back(e);
        }
        proof {
            assert(entries@.take(entries@.len() as int) =~= entries@);
            assert(pending.len() <= usize::MAX);
        }
        Ingestion { pending, in_flight: false, ingested: 0 }
    }

    /// Takes the next step of the request: entries are handed out in order,
    /// each only after the one before it is on disk. The first refusal ends
    /// the request with an answer that counts what was kept.
    pub fn step(&mut self, event: IngestEvent) -> (r: IngestAction)
        requires
            old(self)@.wf(),
            old(self)@.in_flight == !(event is Begin),
        ensures
            final(self)@.wf(),
            ({
                let now = old(self)@.settled(event);
                if event is AppendFailed {
                    &&& final(self)@ == now
                    &&& r matches IngestAction::Answer(reply) && reply == Reply::AppendFailed {
                        ingested: now.ingested as usize,
                    }
                } else if now.pending.len() == 0 {
                    &&& final(self)@ == now
                    &&& r matches IngestAction::Answer(reply) && reply == Reply::Accepted {
                        ingested: now.ingested as usize,
                    }
                } else {
                    &&& final(self)@ == (IngestionView {
                        pending: now.pending.drop_first(),
                        in_flight: true,
                        ..now
                    })
                    &&& r matches IngestAction::Append(e) && now.pending[0].may_become(e@)
                }
            }),
    {
        self.in_flight = false;
        match event {
            IngestEvent::AppendFailed => {
                return IngestAction::Answer(Reply::AppendFailed { ingested: self.ingested });
            },
            IngestEvent::Appended => {
                self.ingested = self.ingested + 1;
            },
            IngestEvent::Begin => {},
        }
        let ghost waiting = self.pending@;
        match self.pending.pop_front() {
            Some(e) => {
                self.in_flight = true;
                proof {
                    assert(ingest_views(self.pending@) =~= ingest_views(waiting).drop_first());
                }
                IngestAction::Append(e.into_op())
            },
            None => IngestAction::Answer(Reply::Accepted { ingested: self.ingested }),
        }
    }
}

/// Takes in a request to append: refused where the service token is missing or
/// wrong, and then no entry is handed out at all.
pub fn ingest(
    headers: &HeaderMap,
    expected: &Option<String>,
    body: IngestBody,
) -> (r: Result<Ingestion, Reply>)
    ensures
        match r {
            Ok(run) => {
                &&& grants(authorization_of(*headers), opt_text(*expected))
                &&& run@ == (IngestionView {
                    pending: entries_of(body),
                    in_flight: false,
                    ingested: 0,
                })
                &&& run@.wf()
            },
            Err(reply) => {
                &&& !grants(authorization_of(*headers), opt_text(*expected))
                &&& reply == Reply::Unauthorized
            },
        },
{
    if !authorized(headers, expected) {
        return Err(Reply::Unauthorized);
    }
    Ok(Ingestion::of(body.into_entries()))
}

/// The parameters of a request for entries.
#[derive(Debug)]
pub struct LogsQuery {
    pub agent_id: Option<String>,
    pub task_id: Option<String>,
    pub level: Option<String>,
    pub limit: Option<usize>,
}

/// `n`, moved into the range from `lo` to `hi`.
pub open spec fn clamped(n: int, lo: int, hi: int) -> int {
    if n < lo {
        lo
    } else if n > hi {
        hi
    } else {
        n
    }
}

/// How many entries a request asks for: a hundred where it does not say, and
/// always one to a thousand.
pub open spec fn requested_limit(limit: Option<usize>) -> int {
    clamped(
        match limit {
            Some(n) => n as int,
            None => 100,
        },
        1,
        1000,
    )
}

impl LogsQuery {
    /// The query that the parameters stand for. An empty filter is no filter.
    pub open spec fn asks_for(self) -> QueryView {
        QueryView {
            agent_id: present(opt_text(self.agent_id)),
            task_id: present(opt_text(self.task_id)),
            level: present(opt_text(self.level)),
            limit: requested_limit(self.limit) as nat,
        }
    }

    /// The query that the parameters stand for. An empty filter is no filter.
    pub fn into_query(self) -> (r: Query)
        ensures
            r@ == self.asks_for(),
    {
        let asked: usize = match self.limit {
            Some(n) => n,
            None => 100,
        };
        let limit: usize = if asked < 1 {
            1
        } else if asked > 1000 {
            1000
        } else {
            asked
        };
        Query {
            agent_id: non_empty(self.agent_id),
            task_id: non_empty(self.task_id),
            level: non_empty(self.level),
            limit,
        }
    }
}

/// Takes in a request for entries: refused where the service token is missing
/// or wrong, and else the query that its parameters stand for, which the log
/// answers with the entries that match, newest first.
pub fn query_logs(
    headers: &HeaderMap,
    expected: &Option<String>,
    params: LogsQuery,
) -> (r: Result<Query, Reply>)
    ensures
        match r {
            Ok(q) => {
                &&& grants(authorization_of(*headers), opt_text(*expected))
                &&& q@ == params.asks_for()
            },
            Err(reply) => {
                &&& !grants(authorization_of(*headers), opt_text(*expected))
                &&& reply == Reply::Unauthorized
            },
        },
{
    if !authorized(headers, expected) {
        return Err(Reply::Unauthorized);
    }
    Ok(params.into_query())
}

/// Without a token to expect, every request may pass.
pub proof fn law_open_without_token(authorization: Option<Seq<char>>)
    ensures
        grants(authorization, None),
        grants(authorization, Some(Seq::empty())),
{
}

/// With a token to expect, a request without an authorization header, or with
/// one of another scheme, may not pass.
pub proof fn law_closed_with_token(authorization: Option<Seq<char>>, token: Seq<char>)
    requires
        token.len() > 0,
        authorization matches Some(text) ==> presented_token(text) is None,
    ensures
        !grants(authorization, Some(token)),
{
}

/// With a token to expect, a bearer header passes exactly where it carries
/// that token, whatever white space surrounds it.
pub proof fn law_only_the_token_opens(text: Seq<char>, token: Seq<char>)
    requires
        token.len() > 0,
    ensures
        grants(Some("Bearer "@ + text), Some(token)) <==> trimmed(text) == token,
        grants(Some("bearer "@ + text), Some(token)) <==> trimmed(text) == token,
{
    let upper = "Bearer "@ + text;
    let lower = "bearer "@ + text;
    reveal_strlit("Bearer ");
    reveal_strlit("bearer ");
    assert(upper.take(7) =~= "Bearer "@);
    assert(upper.skip(7) =~= text);
    assert(lower.take(7) =~= "bearer "@);
    assert(lower.skip(7) =~= text);
    assert(lower.take(7)[0] == 'b');
    assert("Bearer "@[0] == 'B');
}

impl IngestionView {
    /// Whether this is a request with these entries, somewhere on its way: of
    /// the entries in their order, the first are kept, then comes the one in
    /// flight, if any, and the rest is pending.
    pub open spec fn is_run_of(self, entries: Seq<IngestEntryView>) -> bool {
        let out = self.ingested + if self.in_flight {
            1int
        } else {
            0int
        };
        &&& out <= entries.len()
        &&& self.pending == entries.skip(out)
    }
}

/// An accepted request starts with every entry pending.
pub proof fn law_request_starts_with_all(entries: Seq<IngestEntryView>)
    ensures
        (IngestionView { pending: entries, in_flight: false, ingested: 0 }).is_run_of(entries),
{
    assert(entries.skip(0) =~= entries);
}

/// Entries are handed out in the order in which they were shipped: the next
/// one is the first that is not kept yet.
pub proof fn law_entries_are_appended_in_order(
    before: IngestionView,
    event: IngestEvent,
    entries: Seq<IngestEntryView>,
)
    requires
        before.is_run_of(entries),
        before.in_flight == !(event is Begin),
        !(event is AppendFailed),
        before.settled(event).pending.len() > 0,
    ensures
        before.settled(event).ingested < entries.len(),
        before.settled(event).pending[0] == entries[before.settled(event).ingested as int],
        (IngestionView {
            pending: before.settled(event).pending.drop_first(),
            in_flight: true,
            ..before.settled(event)
        }).is_run_of(entries),
{
    let now = before.settled(event);
    assert(now.pending.drop_first() =~= entries.skip(now.ingested + 1int));
}

/// A request that is answered as accepted has kept every entry, and one that
/// the disk refused reports exactly the entries before the refused one.
pub proof fn law_answer_counts_what_was_kept(
    before: IngestionView,
    event: IngestEvent,
    entries: Seq<IngestEntryView>,
)
    requires
        before.is_run_of(entries),
        before.in_flight == !(event is Begin),
    ensures
        event is AppendFailed ==> before.settled(event).ingested + before.pending.len() + 1
            == entries.len(),
        !(event is AppendFailed) && before.settled(event).pending.len() == 0
            ==> before.settled(event).ingested == entries.len(),
{
}

/// A request for entries is never answered with more than a thousand, and its
/// limit is kept as it is where it lies between one and a thousand.
pub proof fn law_answers_are_bounded(params: LogsQuery, index: Seq<OpEntryView>)
    ensures
        params.asks_for().selects(index).len() <= 1000,
        1 <= requested_limit(params.limit) <= 1000,
        params.limit matches Some(n) ==> (1 <= n <= 1000 ==> requested_limit(params.limit) == n),
        params.limit is None ==> requested_limit(params.limit) == 100,
{
    law_query_answers_match(index, params.asks_for());
}

/// Who may pass: everyone where no token is expected or it is empty, and else
/// exactly those whose header is a bearer scheme and, without white space
/// around it, the token.
pub proof fn law_who_may_pass(authorization: Option<Seq<char>>, token: Seq<char>)
    ensures
        grants(authorization, None),
        token.len() == 0 ==> grants(authorization, Some(token)),
        token.len() > 0 && authorization is None ==> !grants(authorization, Some(token)),
        token.len() > 0 && authorization is Some ==> (grants(authorization, Some(token))
            <==> exists|rest: Seq<char>|
            (authorization->0 == "Bearer "@ + rest || authorization->0 == "bearer "@ + rest) && #[trigger] trimmed(
                rest,
            ) == token),
{
    if let Some(text) = authorization {
        if token.len() > 0 {
            if grants(authorization, Some(token)) {
                if without_prefix(text, "Bearer "@) is Some {
                    let rest = without_prefix(text, "Bearer "@)->0;
                    law_prefix_and_rest_make_the_text(text, "Bearer "@, rest);
                    assert(trimmed(rest) == token);
                } else {
                    let rest = without_prefix(text, "bearer "@)->0;
                    law_prefix_and_rest_make_the_text(text, "bearer "@, rest);
                    assert(trimmed(rest) == token);
                }
            }
            if exists|rest: Seq<char>|
                (text == "Bearer "@ + rest || text == "bearer "@ + rest) && #[trigger] trimmed(
                    rest,
                ) == token {
                let rest = choose|rest: Seq<char>|
                    (text == "Bearer "@ + rest || text == "bearer "@ + rest) && #[trigger] trimmed(
                        rest,
                    ) == token;
                law_only_the_token_opens(rest, token);
            }
        }
    }
}

/// A shipped entry in contracts shows every field of the entry, and a list of
/// them has one for each of the list, in its place.
pub proof fn law_shipped_entry_shows_its_fields(e: IngestEntry, entries: Seq<IngestEntry>)
    ensures
        e@.message == e.message@,
        e@.level is Some == e.level is Some,
        e.level matches Some(s) ==> e@.level == Some(s@),
        e@.source is Some == e.source is Some,
        e.source matches Some(s) ==> e@.source == Some(s@),
        e@.agent_id is Some == e.agent_id is Some,
        e.agent_id matches Some(s) ==> e@.agent_id == Some(s@),
        e@.task_id is Some == e.task_id is Some,
        e.task_id matches Some(s) ==> e@.task_id == Some(s@),
        e@.timestamp == e.timestamp,
        e@.metadata == e.metadata,
        entries_of(IngestBody::One(e)).len() == 1,
        entries_of(IngestBody::One(e))[0] == e@,
        ingest_views(entries).len() == entries.len(),
        forall|i: int|
            0 <= i < entries.len() ==> #[trigger] ingest_views(entries)[i] == entries[i]@,
{
}

/// A batch is its entries, one for one, in the order in which they were
/// shipped.
pub proof fn law_batch_is_its_entries(entries: Vec<IngestEntry>)
    ensures
        entries_of(IngestBody::Many(entries)).len() == entries@.len(),
        forall|i: int|
            0 <= i < entries@.len() ==> #[trigger] entries_of(IngestBody::Many(entries))[i]
                == entries@[i]@,
{
}

/// What was shipped is what is logged. The message and the structured context
/// are kept as they are, and so are the source, the level, the agent and the
/// task wherever they are not empty. Only where they are absent or empty does
/// the source become `unknown` and the level `info`, and agent and task stay
/// absent. An own timestamp is kept, and only else is the entry stamped.
pub proof fn law_shipped_values_are_logged(shipped: IngestEntryView, now: Timestamp, e: OpEntryView)
    requires
        e == shipped.op_at(now) || shipped.may_become(e),
    ensures
        e.message == shipped.message,
        e.metadata == shipped.metadata,
        shipped.source matches Some(s) ==> (s.len() > 0 ==> e.source == s),
        shipped.source is None || shipped.source->0.len() == 0 ==> e.source == "unknown"@,
        shipped.level matches Some(s) ==> (s.len() > 0 ==> e.level == s),
        shipped.level is None || shipped.level->0.len() == 0 ==> e.level == "info"@,
        shipped.agent_id matches Some(s) ==> (s.len() > 0 ==> e.agent_id == Some(s)),
        shipped.agent_id is None || shipped.agent_id->0.len() == 0 ==> e.agent_id is None,
        shipped.task_id matches Some(s) ==> (s.len() > 0 ==> e.task_id == Some(s)),
        shipped.task_id is None || shipped.task_id->0.len() == 0 ==> e.task_id is None,
        shipped.timestamp matches Some(t) ==> e.timestamp == t,
        e == shipped.op_at(now) && shipped.timestamp is None ==> e.timestamp == now,
        shipped.may_become(e) && shipped.timestamp is None ==> e.timestamp.secs >= 0
            && e.timestamp.nanos < 1_000_000_000,
{
}

/// What is known of a request changes by what became of the entry in flight:
/// it is counted exactly where it is on disk, and nothing else changes.
pub proof fn law_only_appended_entries_count(run: IngestionView, event: IngestEvent)
    ensures
        run.settled(event).pending == run.pending,
        !run.settled(event).in_flight,
        event is Appended ==> run.settled(event).ingested == run.ingested + 1,
        !(event is Appended) ==> run.settled(event).ingested == run.ingested,
{
}

/// A request for entries asks for what its parameters say: each filter as it
/// is given, or none where it is absent or empty, and a number of entries that
/// is moved up to one or down to a thousand where it lies outside, and is a
/// hundred where it is absent.
pub proof fn law_parameters_become_the_query(params: LogsQuery)
    ensures
        ({
            let q = params.asks_for();
            &&& params.agent_id matches Some(s) ==> q.agent_id == if s@.len() > 0 {
                Some(s@)
            } else {
                None
            }
            &&& params.agent_id is None ==> q.agent_id is None
            &&& params.task_id matches Some(s) ==> q.task_id == if s@.len() > 0 {
                Some(s@)
            } else {
                None
            }
            &&& params.task_id is None ==> q.task_id is None
            &&& params.level matches Some(s) ==> q.level == if s@.len() > 0 {
                Some(s@)
            } else {
                None
            }
            &&& params.level is None ==> q.level is None
            &&& params.limit is None ==> q.limit == 100
            &&& params.limit matches Some(n) ==> (1 <= n <= 1000 ==> q.limit == n)
            &&& params.limit matches Some(n) ==> (n < 1 ==> q.limit == 1)
            &&& params.limit matches Some(n) ==> (n > 1000 ==> q.limit == 1000)
        }),
{
}

/// A number that is moved into a range stays as it is inside, and becomes the
/// nearer end outside.
pub proof fn law_clamping_moves_only_what_is_outside(n: int, lo: int, hi: int)
    requires
        lo <= hi,
    ensures
        lo <= n <= hi ==> clamped(n, lo, hi) == n,
        n < lo ==> clamped(n, lo, hi) == lo,
        n > hi ==> clamped(n, lo, hi) == hi,
{
}

} // verus!
