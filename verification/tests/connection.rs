use helios::admission::AdmissionGate;
use helios::config::Config;
use helios::conn::{conn_start, conn_step, ConnAction, ConnEvent, ConnState};
use helios::http::{HttpMessage, HttpStatusCode, HttpVersion};

fn test_config() -> Config {
    let mut config = Config::default();
    config.max_header_len = 64;
    config.max_body_len = 1024;
    config
}

fn ok_response() -> HttpMessage {
    HttpMessage::new_response(
        HttpVersion::HTTP11,
        HttpStatusCode::Okay,
        &[("Content-Length", "5")],
        Some(b"hello".to_vec()),
    )
}

#[test]
fn oversized_header_gets_one_content_too_large_then_close() {
    let config = test_config();
    let (state, action) = conn_start(true);
    assert!(matches!(action, ConnAction::ReadHeader));

    // far over the 64-byte cap, and no terminator in sight
    let big = "X".repeat(100);
    let (state, action) = conn_step(state, ConnEvent::ChunkRead(big), &config);
    assert!(matches!(
        action,
        ConnAction::SendError(HttpStatusCode::ContentTooLarge)
    ));
    assert!(matches!(state, ConnState::SendingError));

    // whatever the error write's outcome, the only next step is a quiet
    // close: exactly one response was emitted
    let (state, action) = conn_step(state, ConnEvent::WriteDone, &config);
    assert!(matches!(action, ConnAction::CloseQuiet));
    assert!(matches!(state, ConnState::Closed));
}

#[test]
fn oversized_content_length_rejected_before_any_body_read() {
    let mut config = test_config();
    config.max_header_len = 4096;
    let (state, _) = conn_start(true);
    let chunk = String::from(
        "POST /upload HTTP/1.1\r\nContent-Length: 999999999\r\n\r\n",
    );
    let (state, action) = conn_step(state, ConnEvent::ChunkRead(chunk), &config);
    // the body is never read: the machine asks for no body bytes
    assert!(matches!(
        action,
        ConnAction::SendError(HttpStatusCode::ContentTooLarge)
    ));
    assert!(matches!(state, ConnState::SendingError));
    let (state, action) = conn_step(state, ConnEvent::WriteDone, &config);
    assert!(matches!(action, ConnAction::CloseQuiet));
    assert!(matches!(state, ConnState::Closed));
}

#[test]
fn admission_at_zero_budget_rejects_without_reading() {
    let mut gate = AdmissionGate::new(0);
    let admitted = gate.try_acquire();
    assert!(!admitted);

    let (state, action) = conn_start(admitted);
    assert!(matches!(
        action,
        ConnAction::SendError(HttpStatusCode::ServiceUnavailable)
    ));
    // the refused connection closes right after the error write; no read
    // was ever requested
    let config = test_config();
    let (state, action) = conn_step(state, ConnEvent::WriteDone, &config);
    assert!(matches!(action, ConnAction::CloseQuiet));
    assert!(matches!(state, ConnState::Closed));
}

#[test]
fn admission_counts_up_and_down() {
    let mut gate = AdmissionGate::new(2);
    assert!(gate.try_acquire());
    assert!(gate.try_acquire());
    assert!(!gate.try_acquire());
    gate.release();
    assert!(gate.try_acquire());
}

#[test]
fn persistence_follows_version_defaults_and_connection_field() {
    let config = test_config();

    // HTTP/1.1, no connection field: persistent
    let (state, _) = conn_start(true);
    let chunk = String::from("GET /index.html HTTP/1.1\r\n\r\n");
    let (state, action) = conn_step(state, ConnEvent::ChunkRead(chunk), &config);
    let request = match action {
        ConnAction::Dispatch(m) => m,
        _ => panic!("expected dispatch"),
    };
    assert!(request.header.is_persistent());
    let (_, action) = conn_step(state, ConnEvent::HandlerDone(ok_response()), &config);
    match action {
        ConnAction::SendResponse(_, keep) => assert!(keep),
        _ => panic!("expected response write"),
    }

    // HTTP/1.0, no connection field: not persistent
    let (state, _) = conn_start(true);
    let chunk = String::from("GET /index.html HTTP/1.0\r\n\r\n");
    let (_, action) = conn_step(state, ConnEvent::ChunkRead(chunk), &config);
    let request = match action {
        ConnAction::Dispatch(m) => m,
        _ => panic!("expected dispatch"),
    };
    assert!(!request.header.is_persistent());
}

#[test]
fn keep_alive_field_overrides_http10_default() {
    let header = helios::http::HttpHeader::from_str(
        "GET / HTTP/1.0\r\nConnection: keep-alive\r\n\r\n",
    )
    .unwrap();
    assert!(header.is_persistent());

    // and an explicit close overrides the HTTP/1.1 default
    let header = helios::http::HttpHeader::from_str(
        "GET / HTTP/1.1\r\nConnection: close\r\n\r\n",
    )
    .unwrap();
    assert!(!header.is_persistent());
}

#[test]
fn same_request_twice_on_persistent_connection_gets_same_response() {
    let config = test_config();
    let raw = String::from("GET /index.html HTTP/1.1\r\n\r\n");

    let (state, action) = conn_start(true);
    assert!(matches!(action, ConnAction::ReadHeader));

    // first exchange
    let (state, action) = conn_step(state, ConnEvent::ChunkRead(raw.clone()), &config);
    let first_request = match action {
        ConnAction::Dispatch(m) => m,
        _ => panic!("expected dispatch"),
    };
    let (state, action) = conn_step(state, ConnEvent::HandlerDone(ok_response()), &config);
    let (first_response, keep) = match action {
        ConnAction::SendResponse(m, keep) => (m, keep),
        _ => panic!("expected response write"),
    };
    assert!(keep);
    let (state, action) = conn_step(state, ConnEvent::WriteDone, &config);
    assert!(matches!(action, ConnAction::ReadHeader));

    // second, identical exchange on the same machine
    let (state, action) = conn_step(state, ConnEvent::ChunkRead(raw), &config);
    let second_request = match action {
        ConnAction::Dispatch(m) => m,
        _ => panic!("expected dispatch"),
    };
    let (state, action) = conn_step(state, ConnEvent::HandlerDone(ok_response()), &config);
    let (second_response, _) = match action {
        ConnAction::SendResponse(m, keep) => (m, keep),
        _ => panic!("expected response write"),
    };
    let (_, action) = conn_step(state, ConnEvent::WriteDone, &config);
    assert!(matches!(action, ConnAction::ReadHeader));

    // both requests and both responses are structurally identical
    assert_eq!(first_request.to_bytes(), second_request.to_bytes());
    assert_eq!(first_response.to_bytes(), second_response.to_bytes());
}

#[test]
fn header_accumulates_across_chunks_and_eof_closes_quietly() {
    let config = test_config();
    let (state, _) = conn_start(true);
    let (state, action) = conn_step(
        state,
        ConnEvent::ChunkRead(String::from("GET / HTTP/1.1\r\n")),
        &config,
    );
    assert!(matches!(action, ConnAction::ReadHeader));
    let (state, action) = conn_step(state, ConnEvent::ChunkRead(String::from("\r\n")), &config);
    assert!(matches!(action, ConnAction::Dispatch(_)));
    assert!(matches!(state, ConnState::Dispatching { .. }));

    // a peer that closes mid-header is dropped silently
    let (state, _) = conn_start(true);
    let (state, action) = conn_step(
        state,
        ConnEvent::ChunkRead(String::from("GET / HT")),
        &config,
    );
    assert!(matches!(action, ConnAction::ReadHeader));
    let (state, action) = conn_step(state, ConnEvent::ReadEof, &config);
    assert!(matches!(action, ConnAction::CloseQuiet));
    assert!(matches!(state, ConnState::Closed));
}

#[test]
fn read_faults_map_to_their_status_codes() {
    let config = test_config();

    let (state, _) = conn_start(true);
    let (_, action) = conn_step(state, ConnEvent::ReadTimedOut, &config);
    assert!(matches!(
        action,
        ConnAction::SendError(HttpStatusCode::RequestTimeout)
    ));

    let (state, _) = conn_start(true);
    let (_, action) = conn_step(state, ConnEvent::ReadFailed, &config);
    assert!(matches!(
        action,
        ConnAction::SendError(HttpStatusCode::InternalServorError)
    ));
}

#[test]
fn parse_failures_map_to_their_status_codes() {
    let mut config = test_config();
    config.max_header_len = 4096;

    let cases: Vec<(&str, HttpStatusCode)> = vec![
        ("FOO / HTTP/1.1\r\n\r\n", HttpStatusCode::NotImplemented),
        ("GET / HTTP/4.2\r\n\r\n", HttpStatusCode::HTTPVersionNotSupported),
        ("GET / HTTP/1.1 WTF\r\n\r\n", HttpStatusCode::BadRequest),
        // a response where a request was expected
        ("HTTP/1.1 200 OK\r\n\r\n", HttpStatusCode::BadRequest),
        // an unparsable content length
        (
            "POST / HTTP/1.1\r\nContent-Length: ten\r\n\r\n",
            HttpStatusCode::BadRequest,
        ),
    ];
    for (raw, expected) in cases {
        let (state, _) = conn_start(true);
        let (_, action) = conn_step(state, ConnEvent::ChunkRead(String::from(raw)), &config);
        match action {
            ConnAction::SendError(code) => assert_eq!(code, expected),
            _ => panic!("expected an error response for {raw}"),
        }
    }
}

#[test]
fn declared_body_is_requested_exactly_then_dispatched() {
    let mut config = test_config();
    config.max_header_len = 4096;
    let (state, _) = conn_start(true);
    let chunk = String::from("POST /form HTTP/1.1\r\nContent-Length: 4\r\n\r\n");
    let (state, action) = conn_step(state, ConnEvent::ChunkRead(chunk), &config);
    match action {
        ConnAction::ReadBody(n) => assert_eq!(n, 4),
        _ => panic!("expected a body read"),
    }
    let (state, action) = conn_step(state, ConnEvent::BodyRead(b"a=b1".to_vec()), &config);
    let request = match action {
        ConnAction::Dispatch(m) => m,
        _ => panic!("expected dispatch"),
    };
    assert!(matches!(state, ConnState::Dispatching { .. }));
    assert_eq!(request.body.as_deref(), Some(b"a=b1".as_slice()));
}

#[test]
fn zero_length_body_is_dispatched_not_dropped() {
    let mut config = test_config();
    config.max_header_len = 4096;
    let (state, _) = conn_start(true);
    let chunk = String::from("POST /form HTTP/1.1\r\nContent-Length: 0\r\n\r\n");
    let (state, action) = conn_step(state, ConnEvent::ChunkRead(chunk), &config);
    match action {
        ConnAction::ReadBody(n) => assert_eq!(n, 0),
        _ => panic!("expected a body read"),
    }
    let (_, action) = conn_step(state, ConnEvent::BodyRead(Vec::new()), &config);
    let request = match action {
        ConnAction::Dispatch(m) => m,
        _ => panic!("expected dispatch"),
    };
    assert_eq!(request.body.as_deref(), Some(b"".as_slice()));
}

#[test]
fn write_failure_closes_without_retry() {
    let config = test_config();
    let (state, _) = conn_start(true);
    let (state, _) = conn_step(
        state,
        ConnEvent::ChunkRead(String::from("GET / HTTP/1.1\r\n\r\n")),
        &config,
    );
    let (state, _) = conn_step(state, ConnEvent::HandlerDone(ok_response()), &config);
    let (state, action) = conn_step(state, ConnEvent::WriteFailed, &config);
    assert!(matches!(action, ConnAction::CloseQuiet));
    assert!(matches!(state, ConnState::Closed));
}

#[test]
fn handler_failure_maps_to_internal_error() {
    let config = test_config();
    let (state, _) = conn_start(true);
    let (state, _) = conn_step(
        state,
        ConnEvent::ChunkRead(String::from("GET / HTTP/1.1\r\n\r\n")),
        &config,
    );
    let (_, action) = conn_step(state, ConnEvent::HandlerFailed, &config);
    assert!(matches!(
        action,
        ConnAction::SendError(HttpStatusCode::InternalServorError)
    ));
}
