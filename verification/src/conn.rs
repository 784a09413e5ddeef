//! The per-connection state machine: it owns one accepted stream's protocol
//! state and decides, on every transport or handler event, the next state
//! and the one action the driver must perform — read more header bytes,
//! read an exact body, dispatch, write a response, or close. All I/O and
//! timing live in the driver; every decision lives here, verified.
//!
//! The driver's contract: perform the returned action, then report its
//! outcome as the next event. Each read runs under a fresh timeout; a timed
//! out read is `ReadTimedOut`, a zero-byte read `ReadEof`, any other
//! transport fault `ReadFailed` or `WriteFailed`.
//!
//! A known availability gap, kept deliberately: the timeout budget is per
//! read, never per connection, so a peer that trickles one byte before each
//! expiry can hold its connection and its admission permit indefinitely.

use vstd::prelude::*;

use crate::chars::{parse_usize, spec_parse_usize};
use vstd::utf8::encode_utf8;
use crate::config::Config;
use crate::http::{Error, HeaderModel, HttpHeader, HttpMessage, HttpStatusCode, MessageModel,
    lookup, spec_is_persistent, spec_parse_header};

verus! {

/// Whether the accumulated header text ends in the blank-line terminator.
pub open spec fn ends_with_terminator(s: Seq<char>) -> bool {
    s.len() >= 4 && s[s.len() - 4] == '\r' && s[s.len() - 3] == '\n' && s[s.len() - 2] == '\r'
        && s[s.len() - 1] == '\n'
}

/// The status a codec error maps to: unknown methods are `Not Implemented`,
/// unknown versions `HTTP Version Not Supported`, all structural faults
/// `Bad Request`.
pub open spec fn spec_error_status(e: Error) -> HttpStatusCode {
    match e {
        Error::UnsupportedMethod => HttpStatusCode::NotImplemented,
        Error::UnsupportedVersion => HttpStatusCode::HTTPVersionNotSupported,
        _ => HttpStatusCode::BadRequest,
    }
}

/// Executable form of [`spec_error_status`].
pub fn error_status(e: Error) -> (r: HttpStatusCode)
    ensures
        r == spec_error_status(e),
{
    match e {
        Error::UnsupportedMethod => HttpStatusCode::NotImplemented,
        Error::UnsupportedVersion => HttpStatusCode::HTTPVersionNotSupported,
        _ => HttpStatusCode::BadRequest,
    }
}

/// What the driver reports to the machine.
pub enum ConnEvent {
    /// Some header text arrived (one buffered line, or any chunk).
    ChunkRead(String),
    /// The peer closed: a zero-byte read.
    ReadEof,
    /// The per-read timeout expired.
    ReadTimedOut,
    /// Any other transport read fault.
    ReadFailed,
    /// Exactly the requested body bytes arrived.
    BodyRead(Vec<u8>),
    /// The request handler finished with its response message.
    HandlerDone(HttpMessage),
    /// The request handler failed.
    HandlerFailed,
    /// The pending write completed.
    WriteDone,
    /// The pending write failed.
    WriteFailed,
}

/// What the machine asks the driver to do next.
pub enum ConnAction {
    /// Read more header data under a fresh timeout.
    ReadHeader,
    /// Read exactly this many body bytes under per-read timeouts.
    ReadBody(usize),
    /// Hand the assembled request to the request-handling collaborator.
    Dispatch(HttpMessage),
    /// Write this response; the flag says whether to keep the connection.
    SendResponse(HttpMessage, bool),
    /// Write one best-effort error response with this status, then report.
    SendError(HttpStatusCode),
    /// Close the transport without writing anything.
    CloseQuiet,
}

/// The protocol state of one connection.
pub enum ConnState {
    /// Accumulating header text until the blank-line terminator.
    ReadingHeader { buf: String },
    /// Reading the declared body length.
    ReadingBody { header: HttpHeader, len: usize },
    /// Waiting for the handler; remembering the persistence decision.
    Dispatching { persistent: bool },
    /// Waiting for the response write to finish.
    WritingResponse { persistent: bool },
    /// Waiting for a best-effort error write; the connection then closes.
    SendingError,
    /// Terminal: transport closed, permit released.
    Closed,
}

/// Mathematical model of an event.
#[verifier::ext_equal]
pub enum EventModel {
    ChunkRead(Seq<char>),
    ReadEof,
    ReadTimedOut,
    ReadFailed,
    BodyRead(Seq<u8>),
    HandlerDone(MessageModel),
    HandlerFailed,
    WriteDone,
    WriteFailed,
}

/// Mathematical model of an action.
#[verifier::ext_equal]
pub enum ActionModel {
    ReadHeader,
    ReadBody(usize),
    Dispatch(MessageModel),
    SendResponse(MessageModel, bool),
    SendError(HttpStatusCode),
    CloseQuiet,
}

/// Mathematical model of a state.
#[verifier::ext_equal]
pub enum StateModel {
    ReadingHeader { buf: Seq<char> },
    ReadingBody { header: HeaderModel, len: usize },
    Dispatching { persistent: bool },
    WritingResponse { persistent: bool },
    SendingError,
    Closed,
}

impl View for ConnEvent {
    type V = EventModel;

    open spec fn view(&self) -> EventModel {
        match self {
            ConnEvent::ChunkRead(s) => EventModel::ChunkRead(s@),
            ConnEvent::ReadEof => EventModel::ReadEof,
            ConnEvent::ReadTimedOut => EventModel::ReadTimedOut,
            ConnEvent::ReadFailed => EventModel::ReadFailed,
            ConnEvent::BodyRead(b) => EventModel::BodyRead(b@),
            ConnEvent::HandlerDone(m) => EventModel::HandlerDone(m@),
            ConnEvent::HandlerFailed => EventModel::HandlerFailed,
            ConnEvent::WriteDone => EventModel::WriteDone,
            ConnEvent::WriteFailed => EventModel::WriteFailed,
        }
    }
}

impl View for ConnAction {
    type V = ActionModel;

    open spec fn view(&self) -> ActionModel {
        match self {
            ConnAction::ReadHeader => ActionModel::ReadHeader,
            ConnAction::ReadBody(n) => ActionModel::ReadBody(*n),
            ConnAction::Dispatch(m) => ActionModel::Dispatch(m@),
            ConnAction::SendResponse(m, p) => ActionModel::SendResponse(m@, *p),
            ConnAction::SendError(c) => ActionModel::SendError(*c),
            ConnAction::CloseQuiet => ActionModel::CloseQuiet,
        }
    }
}

impl View for ConnState {
    type V = StateModel;

    open spec fn view(&self) -> StateModel {
        match self {
            ConnState::ReadingHeader { buf } => StateModel::ReadingHeader { buf: buf@ },
            ConnState::ReadingBody { header, len } => StateModel::ReadingBody {
                header: header@,
                len: *len,
            },
            ConnState::Dispatching { persistent } => StateModel::Dispatching {
                persistent: *persistent,
            },
            ConnState::WritingResponse { persistent } => StateModel::WritingResponse {
                persistent: *persistent,
            },
            ConnState::SendingError => StateModel::SendingError,
            ConnState::Closed => StateModel::Closed,
        }
    }
}

/// What a complete header block leads to: parse it; a parse failure or a
/// response-shaped header is answered and the connection condemned; a
/// `content-length` field must parse and fit the body cap before a body
/// read is even attempted; otherwise the request dispatches.
pub open spec fn spec_on_header(nb: Seq<char>, max_body: usize) -> (StateModel, ActionModel) {
    match spec_parse_header(nb) {
        Err(e) => (StateModel::SendingError, ActionModel::SendError(spec_error_status(e))),
        Ok(h) => if !(h.start is Request) {
            (StateModel::SendingError, ActionModel::SendError(HttpStatusCode::BadRequest))
        } else {
            match lookup(h.fields, "content-length"@) {
                Some(v) => match spec_parse_usize(v) {
                    None => (
                        StateModel::SendingError,
                        ActionModel::SendError(HttpStatusCode::BadRequest),
                    ),
                    Some(len) => if len > max_body {
                        (
                            StateModel::SendingError,
                            ActionModel::SendError(HttpStatusCode::ContentTooLarge),
                        )
                    } else {
                        (
                            StateModel::ReadingBody { header: h, len },
                            ActionModel::ReadBody(len),
                        )
                    },
                },
                None => (
                    StateModel::Dispatching { persistent: spec_is_persistent(h) },
                    ActionModel::Dispatch(MessageModel { header: h, body: None }),
                ),
            }
        },
    }
}

/// One transition of the connection state machine: from a state and an
/// event to the next state and the action the driver must perform.
pub open spec fn spec_conn_step(
    s: StateModel,
    e: EventModel,
    max_header: usize,
    max_body: usize,
) -> (StateModel, ActionModel) {
    match (s, e) {
        (StateModel::ReadingHeader { buf }, EventModel::ChunkRead(chunk)) => {
            let nb = buf + chunk;
            if encode_utf8(nb).len() > max_header {
                (
                    StateModel::SendingError,
                    ActionModel::SendError(HttpStatusCode::ContentTooLarge),
                )
            } else if ends_with_terminator(nb) {
                spec_on_header(nb, max_body)
            } else {
                (StateModel::ReadingHeader { buf: nb }, ActionModel::ReadHeader)
            }
        },
        (StateModel::ReadingHeader { .. }, EventModel::ReadEof) => (
            StateModel::Closed,
            ActionModel::CloseQuiet,
        ),
        (StateModel::ReadingHeader { .. }, EventModel::ReadTimedOut) => (
            StateModel::SendingError,
            ActionModel::SendError(HttpStatusCode::RequestTimeout),
        ),
        (StateModel::ReadingHeader { .. }, EventModel::ReadFailed) => (
            StateModel::SendingError,
            ActionModel::SendError(HttpStatusCode::InternalServorError),
        ),
        (StateModel::ReadingBody { header, len }, EventModel::BodyRead(b)) => {
            if b.len() == len {
                (
                    StateModel::Dispatching { persistent: spec_is_persistent(header) },
                    ActionModel::Dispatch(MessageModel { header, body: Some(b) }),
                )
            } else {
                (
                    StateModel::SendingError,
                    ActionModel::SendError(HttpStatusCode::InternalServorError),
                )
            }
        },
        (StateModel::ReadingBody { .. }, EventModel::ReadEof) => (
            StateModel::Closed,
            ActionModel::CloseQuiet,
        ),
        (StateModel::ReadingBody { .. }, EventModel::ReadTimedOut) => (
            StateModel::SendingError,
            ActionModel::SendError(HttpStatusCode::RequestTimeout),
        ),
        (StateModel::ReadingBody { .. }, EventModel::ReadFailed) => (
            StateModel::SendingError,
            ActionModel::SendError(HttpStatusCode::InternalServorError),
        ),
        (StateModel::Dispatching { persistent }, EventModel::HandlerDone(resp)) => (
            StateModel::WritingResponse { persistent },
            ActionModel::SendResponse(resp, persistent),
        ),
        (StateModel::Dispatching { .. }, EventModel::HandlerFailed) => (
            StateModel::SendingError,
            ActionModel::SendError(HttpStatusCode::InternalServorError),
        ),
        (StateModel::WritingResponse { persistent }, EventModel::WriteDone) => {
            if persistent {
                (
                    StateModel::ReadingHeader { buf: Seq::empty() },
                    ActionModel::ReadHeader,
                )
            } else {
                (StateModel::Closed, ActionModel::CloseQuiet)
            }
        },
        (StateModel::WritingResponse { .. }, EventModel::WriteFailed) => (
            StateModel::Closed,
            ActionModel::CloseQuiet,
        ),
        (StateModel::SendingError, _) => (StateModel::Closed, ActionModel::CloseQuiet),
        _ => (StateModel::Closed, ActionModel::CloseQuiet),
    }
}

/// The state a connection starts in, after the admission decision: admitted,
/// it reads its first header; refused, it is answered `Service Unavailable`
/// at once and closed — no header is ever read from it.
pub open spec fn spec_conn_start(admitted: bool) -> (StateModel, ActionModel) {
    if admitted {
        (StateModel::ReadingHeader { buf: Seq::empty() }, ActionModel::ReadHeader)
    } else {
        (
            StateModel::SendingError,
            ActionModel::SendError(HttpStatusCode::ServiceUnavailable),
        )
    }
}

/// Starts a connection's state machine after the admission decision.
pub fn conn_start(admitted: bool) -> (r: (ConnState, ConnAction))
    ensures
        (r.0@, r.1@) == spec_conn_start(admitted),
{
    if admitted {
        let buf = String::new();
        proof {
            assert(buf@ =~= Seq::<char>::empty());
        }
        (ConnState::ReadingHeader { buf }, ConnAction::ReadHeader)
    } else {
        (
            ConnState::SendingError,
            ConnAction::SendError(HttpStatusCode::ServiceUnavailable),
        )
    }
}

/// Whether the accumulated header text ends with the terminator.
fn has_terminator(s: &String) -> (r: bool)
    ensures
        r == ends_with_terminator(s@),
{
    let n = s.as_str().unicode_len();
    if n < 4 {
        return false;
    }
    let a = s.as_str().get_char(n - 4);
    let b = s.as_str().get_char(n - 3);
    let c = s.as_str().get_char(n - 2);
    let d = s.as_str().get_char(n - 1);
    a == '\r' && b == '\n' && c == '\r' && d == '\n'
}

/// Performs one transition of the connection state machine.
pub fn conn_step(state: ConnState, event: ConnEvent, config: &Config) -> (r: (
    ConnState,
    ConnAction,
))
    ensures
        (r.0@, r.1@) == spec_conn_step(state@, event@, config.max_header_len, config.max_body_len),
{
    match (state, event) {
        (ConnState::ReadingHeader { mut buf }, ConnEvent::ChunkRead(chunk)) => {
            buf.append(chunk.as_str());
            // the size cap counts bytes on the wire, not characters
            let byte_len = buf.as_str().as_bytes().len();
            proof {
                assert(byte_len == encode_utf8(buf@).len());
            }
            if byte_len > config.max_header_len {
                (
                    ConnState::SendingError,
                    ConnAction::SendError(HttpStatusCode::ContentTooLarge),
                )
            } else if has_terminator(&buf) {
                match HttpHeader::from_str(buf.as_str()) {
                    Err(e) => (ConnState::SendingError, ConnAction::SendError(error_status(e))),
                    Ok(h) => {
                        if !h.is_request() {
                            (
                                ConnState::SendingError,
                                ConnAction::SendError(HttpStatusCode::BadRequest),
                            )
                        } else {
                            let clen = match h.field_lines.get("content-length") {
                                Some(v) => Some(parse_usize(v.as_str())),
                                None => None,
                            };
                            match clen {
                                Some(None) => (
                                    ConnState::SendingError,
                                    ConnAction::SendError(HttpStatusCode::BadRequest),
                                ),
                                Some(Some(len)) => {
                                    if len > config.max_body_len {
                                        (
                                            ConnState::SendingError,
                                            ConnAction::SendError(HttpStatusCode::ContentTooLarge),
                                        )
                                    } else {
                                        (
                                            ConnState::ReadingBody { header: h, len },
                                            ConnAction::ReadBody(len),
                                        )
                                    }
                                },
                                None => {
                                    let persistent = h.is_persistent();
                                    (
                                        ConnState::Dispatching { persistent },
                                        ConnAction::Dispatch(
                                            HttpMessage { header: h, body: None },
                                        ),
                                    )
                                },
                            }
                        }
                    },
                }
            } else {
                (ConnState::ReadingHeader { buf }, ConnAction::ReadHeader)
            }
        },
        (ConnState::ReadingHeader { .. }, ConnEvent::ReadEof) => (
            ConnState::Closed,
            ConnAction::CloseQuiet,
        ),
        (ConnState::ReadingHeader { .. }, ConnEvent::ReadTimedOut) => (
            ConnState::SendingError,
            ConnAction::SendError(HttpStatusCode::RequestTimeout),
        ),
        (ConnState::ReadingHeader { .. }, ConnEvent::ReadFailed) => (
            ConnState::SendingError,
            ConnAction::SendError(HttpStatusCode::InternalServorError),
        ),
        (ConnState::ReadingBody { header, len }, ConnEvent::BodyRead(b)) => {
            if b.len() == len {
                let persistent = header.is_persistent();
                (
                    ConnState::Dispatching { persistent },
                    ConnAction::Dispatch(HttpMessage { header, body: Some(b) }),
                )
            } else {
                (
                    ConnState::SendingError,
                    ConnAction::SendError(HttpStatusCode::InternalServorError),
                )
            }
        },
        (ConnState::ReadingBody { .. }, ConnEvent::ReadEof) => (
            ConnState::Closed,
            ConnAction::CloseQuiet,
        ),
        (ConnState::ReadingBody { .. }, ConnEvent::ReadTimedOut) => (
            ConnState::SendingError,
            ConnAction::SendError(HttpStatusCode::RequestTimeout),
        ),
        (ConnState::ReadingBody { .. }, ConnEvent::ReadFailed) => (
            ConnState::SendingError,
            ConnAction::SendError(HttpStatusCode::InternalServorError),
        ),
        (ConnState::Dispatching { persistent }, ConnEvent::HandlerDone(resp)) => (
            ConnState::WritingResponse { persistent },
            ConnAction::SendResponse(resp, persistent),
        ),
        (ConnState::Dispatching { .. }, ConnEvent::HandlerFailed) => (
            ConnState::SendingError,
            ConnAction::SendError(HttpStatusCode::InternalServorError),
        ),
        (ConnState::WritingResponse { persistent }, ConnEvent::WriteDone) => {
            if persistent {
                let buf = String::new();
                proof {
                    assert(buf@ =~= Seq::<char>::empty());
                }
                (ConnState::ReadingHeader { buf }, ConnAction::ReadHeader)
            } else {
                (ConnState::Closed, ConnAction::CloseQuiet)
            }
        },
        (ConnState::WritingResponse { .. }, ConnEvent::WriteFailed) => (
            ConnState::Closed,
            ConnAction::CloseQuiet,
        ),
        (ConnState::SendingError, _) => (ConnState::Closed, ConnAction::CloseQuiet),
        _ => (ConnState::Closed, ConnAction::CloseQuiet),
    }
}

/// A whole run of the machine: the final state and the actions requested,
/// in order, for a sequence of events.
pub open spec fn spec_run(
    s: StateModel,
    es: Seq<EventModel>,
    max_header: usize,
    max_body: usize,
) -> (StateModel, Seq<ActionModel>)
    decreases es.len(),
{
    if es.len() == 0 {
        (s, Seq::empty())
    } else {
        let (s1, a) = spec_conn_step(s, es[0], max_header, max_body);
        let (sf, acts) = spec_run(s1, es.drop_first(), max_header, max_body);
        (sf, seq![a] + acts)
    }
}

/// Runs compose: the actions of a concatenated event sequence are the
/// actions of its parts, the second part starting where the first ended.
pub proof fn lemma_run_append(
    s: StateModel,
    e1: Seq<EventModel>,
    e2: Seq<EventModel>,
    mh: usize,
    mb: usize,
)
    ensures
        spec_run(s, e1 + e2, mh, mb).0 == spec_run(spec_run(s, e1, mh, mb).0, e2, mh, mb).0,
        spec_run(s, e1 + e2, mh, mb).1 == spec_run(s, e1, mh, mb).1 + spec_run(
            spec_run(s, e1, mh, mb).0,
            e2,
            mh,
            mb,
        ).1,
    decreases e1.len(),
{
    if e1.len() == 0 {
        assert(e1 + e2 =~= e2);
        assert(spec_run(s, e1, mh, mb).1 + spec_run(s, e2, mh, mb).1 =~= spec_run(s, e2, mh, mb).1);
    } else {
        let (s1, a) = spec_conn_step(s, e1[0], mh, mb);
        assert((e1 + e2)[0] == e1[0]);
        assert((e1 + e2).drop_first() =~= e1.drop_first() + e2);
        lemma_run_append(s1, e1.drop_first(), e2, mh, mb);
        assert(spec_run(s, e1 + e2, mh, mb).1 =~= spec_run(s, e1, mh, mb).1 + spec_run(
            spec_run(s, e1, mh, mb).0,
            e2,
            mh,
            mb,
        ).1);
    }
}

/// Idempotence of a persistent exchange: an event sequence (one full
/// request, its response, and the completed write) that returns the machine
/// to its starting state produces, run twice in a row, exactly the same
/// actions twice — the second identical request is answered identically.
pub proof fn lemma_repeat_exchange(
    s0: StateModel,
    es: Seq<EventModel>,
    mh: usize,
    mb: usize,
)
    requires
        spec_run(s0, es, mh, mb).0 == s0,
    ensures
        spec_run(s0, es + es, mh, mb).0 == s0,
        spec_run(s0, es + es, mh, mb).1 == spec_run(s0, es, mh, mb).1 + spec_run(s0, es, mh, mb).1,
{
    lemma_run_append(s0, es, es, mh, mb);
}

/// A header block that exceeds the cap without a terminator found draws
/// exactly one `Content Too Large` response: the machine condemns the
/// connection, and its only remaining step, whatever the error write's
/// outcome, is a quiet close — no second response, no further read.
pub proof fn lemma_oversized_header_rejected(
    buf: Seq<char>,
    chunk: Seq<char>,
    e: EventModel,
    mh: usize,
    mb: usize,
)
    requires
        encode_utf8(buf + chunk).len() > mh,
    ensures
        spec_conn_step(StateModel::ReadingHeader { buf }, EventModel::ChunkRead(chunk), mh, mb)
            == (
            StateModel::SendingError,
            ActionModel::SendError(HttpStatusCode::ContentTooLarge),
        ),
        spec_conn_step(StateModel::SendingError, e, mh, mb) == (
            StateModel::Closed,
            ActionModel::CloseQuiet,
        ),
{
}

/// A declared `content-length` beyond the body cap is answered
/// `Content Too Large` and the connection condemned; the body is never
/// read — the machine asks for no `ReadBody` on this path.
pub proof fn lemma_oversized_body_never_read(
    buf: Seq<char>,
    chunk: Seq<char>,
    mh: usize,
    mb: usize,
)
    requires
        encode_utf8(buf + chunk).len() <= mh,
        ends_with_terminator(buf + chunk),
        spec_parse_header(buf + chunk) is Ok,
        spec_parse_header(buf + chunk)->Ok_0.start is Request,
        lookup(spec_parse_header(buf + chunk)->Ok_0.fields, "content-length"@) is Some,
        spec_parse_usize(
            lookup(spec_parse_header(buf + chunk)->Ok_0.fields, "content-length"@)->Some_0,
        ) is Some,
        spec_parse_usize(
            lookup(spec_parse_header(buf + chunk)->Ok_0.fields, "content-length"@)->Some_0,
        )->Some_0 > mb,
    ensures
        spec_conn_step(StateModel::ReadingHeader { buf }, EventModel::ChunkRead(chunk), mh, mb)
            == (
            StateModel::SendingError,
            ActionModel::SendError(HttpStatusCode::ContentTooLarge),
        ),
{
}

/// Overload: a connection refused by the admission gate is answered
/// `Service Unavailable` immediately and closed; the machine never asks the
/// driver to read anything from it.
pub proof fn lemma_overload_rejected(e: EventModel, mh: usize, mb: usize)
    ensures
        spec_conn_start(false) == (
            StateModel::SendingError,
            ActionModel::SendError(HttpStatusCode::ServiceUnavailable),
        ),
        spec_conn_step(spec_conn_start(false).0, e, mh, mb) == (
            StateModel::Closed,
            ActionModel::CloseQuiet,
        ),
{
}

/// A well-formed persistent exchange really does return the machine to its
/// starting state: one complete header block naming no body, whose request
/// asks for persistence, then the handler's response and the finished
/// write. With [`lemma_repeat_exchange`] this gives the idempotence of
/// repeating the same request on one kept-alive connection.
pub proof fn lemma_get_exchange_loops(
    chunk: Seq<char>,
    resp: MessageModel,
    mh: usize,
    mb: usize,
)
    requires
        encode_utf8(chunk).len() <= mh,
        ends_with_terminator(chunk),
        spec_parse_header(chunk) is Ok,
        spec_parse_header(chunk)->Ok_0.start is Request,
        lookup(spec_parse_header(chunk)->Ok_0.fields, "content-length"@) is None,
        spec_is_persistent(spec_parse_header(chunk)->Ok_0),
    ensures
        spec_run(
            spec_conn_start(true).0,
            seq![
                EventModel::ChunkRead(chunk),
                EventModel::HandlerDone(resp),
                EventModel::WriteDone,
            ],
            mh,
            mb,
        ) == (
            spec_conn_start(true).0,
            seq![
                ActionModel::Dispatch(
                    MessageModel { header: spec_parse_header(chunk)->Ok_0, body: None },
                ),
                ActionModel::SendResponse(resp, true),
                ActionModel::ReadHeader,
            ],
        ),
{
    let init = spec_conn_start(true).0;
    let h = spec_parse_header(chunk)->Ok_0;
    let es = seq![
        EventModel::ChunkRead(chunk),
        EventModel::HandlerDone(resp),
        EventModel::WriteDone,
    ];
    assert(Seq::<char>::empty() + chunk =~= chunk);
    let (s1, a1) = spec_conn_step(init, es[0], mh, mb);
    assert(s1 == StateModel::Dispatching { persistent: true });
    assert(a1 == ActionModel::Dispatch(MessageModel { header: h, body: None }));
    let (s2, a2) = spec_conn_step(s1, EventModel::HandlerDone(resp), mh, mb);
    assert(s2 == StateModel::WritingResponse { persistent: true });
    let (s3, a3) = spec_conn_step(s2, EventModel::WriteDone, mh, mb);
    assert(s3 =~~= init);
    let es1 = es.drop_first();
    let es2 = es1.drop_first();
    let es3 = es2.drop_first();
    assert(es1[0] == es[1]);
    assert(es2[0] == es[2]);
    assert(es3.len() == 0);
    assert(spec_run(s3, es3, mh, mb) == (s3, Seq::<ActionModel>::empty()));
    assert(spec_run(s2, es2, mh, mb).0 == s3);
    assert(spec_run(s2, es2, mh, mb).1 =~= seq![a3]);
    assert(spec_run(s1, es1, mh, mb).0 == s3);
    assert(spec_run(s1, es1, mh, mb).1 =~= seq![a2] + (seq![a3] + Seq::<ActionModel>::empty()));
    assert(spec_run(init, es, mh, mb).0 == s3);
    assert(spec_run(init, es, mh, mb).1 =~~= seq![a1, a2, a3]);
}

} // verus!
