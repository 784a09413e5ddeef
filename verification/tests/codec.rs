use helios::http::{
    Error, HeaderFields, HttpField, HttpHeader, HttpMessage, HttpMethod, HttpRequestLine,
    HttpStartLine, HttpStatusCode, HttpStatusLine, HttpVersion,
};

#[test]
fn http_test_status_line_from_str() {
    // Valid (with optional description)
    let status_line: HttpStatusLine = HttpStatusLine::from_str("HTTP/1.1 200 OK").unwrap();
    assert_eq!(status_line.http_version, HttpVersion::HTTP11);
    assert_eq!(status_line.status_code, HttpStatusCode::Okay);

    // Valid (without optional description)
    let status_line: HttpStatusLine = HttpStatusLine::from_str("HTTP/1.1 200 ").unwrap();
    assert_eq!(status_line.http_version, HttpVersion::HTTP11);
    assert_eq!(status_line.status_code, HttpStatusCode::Okay);

    // Invalid (invalid response code)
    assert!(HttpStatusLine::from_str("HTTP/1.1 1337 Wtf").is_err());

    // Invalid (invalid HTTP version)
    assert!(HttpStatusLine::from_str("HTTP/4.2 200 OK").is_err());

    // Invalid (missing trailing space)
    assert!(HttpStatusLine::from_str("HTTP/1.1 200").is_err());

    // Invalid (multiple spaces between tokens)
    assert!(HttpStatusLine::from_str("HTTP/1.1  200 OK").is_err());

    // Invalid (extra trailing tokens)
    assert!(HttpStatusLine::from_str("HTTP/1.1 200 OK WTF").is_err());

    // Invalid (malformed)
    assert!(HttpStatusLine::from_str("").is_err());

    // Invalid (malformed)
    assert!(HttpStatusLine::from_str("\r\n").is_err());

    // Invalid (malformed)
    assert!(HttpStatusLine::from_str("Hack the planet!").is_err());
}

#[test]
fn http_test_status_line_to_str() {
    let status_line = HttpStatusLine {
        http_version: HttpVersion::HTTP11,
        status_code: HttpStatusCode::Okay,
    };

    assert_eq!(status_line.render(), "HTTP/1.1 200 OK");
}

#[test]
fn http_test_request_line_from_str() {
    // Valid
    let request_line: HttpRequestLine =
        HttpRequestLine::from_str("GET /index.html HTTP/1.1").unwrap();
    assert_eq!(request_line.method, HttpMethod::Get);
    assert_eq!(request_line.target, String::from("/index.html"));
    assert_eq!(request_line.http_version, HttpVersion::HTTP11);

    // Invalid (invalid method)
    assert!(HttpRequestLine::from_str("FOO / HTTP/1.1").is_err());

    // Invalid (invalid HTTP version)
    assert!(HttpRequestLine::from_str("GET / HTTP/4.2").is_err());

    // Invalid (target contains whitespace)
    assert!(HttpRequestLine::from_str("GET /guest book.html HTTP/4.2").is_err());

    // Invalid (multiple spaces between tokens)
    assert!(HttpRequestLine::from_str("GET  / HTTP/1.1").is_err());

    // Invalid (extra trailing tokens)
    assert!(HttpRequestLine::from_str("GET / HTTP/1.1 WTF").is_err());

    // Invalid (malformed)
    assert!(HttpRequestLine::from_str("\r\n").is_err());

    // Invalid (malformed)
    assert!(HttpRequestLine::from_str("Hack the planet!").is_err());
}

#[test]
fn http_test_request_line_to_str() {
    let request_line = HttpRequestLine {
        method: HttpMethod::Get,
        target: String::from("/index.html"),
        http_version: HttpVersion::HTTP11,
    };

    assert_eq!(request_line.render(), "GET /index.html HTTP/1.1")
}

#[test]
fn http_test_field_line_from_str() {
    // Valid
    let field_line: HttpField = HttpField::from_str("Connection:keep-alive").unwrap();
    assert_eq!(field_line.name, "Connection");
    assert_eq!(field_line.value, "keep-alive");

    // Valid (field value contains colon)
    let field_line: HttpField = HttpField::from_str("Host:localhost:42").unwrap();
    assert_eq!(field_line.name, "Host");
    assert_eq!(field_line.value, "localhost:42");

    // Valid (optional whitespace)
    let field_line: HttpField = HttpField::from_str("Connection: keep-alive").unwrap();
    assert_eq!(field_line.name, "Connection");
    assert_eq!(field_line.value, "keep-alive");

    // Valid (optional whitespace)
    let field_line: HttpField = HttpField::from_str("Connection:keep-alive ").unwrap();
    assert_eq!(field_line.name, "Connection");
    assert_eq!(field_line.value, "keep-alive");

    // Valid (optional whitespace)
    let field_line: HttpField = HttpField::from_str("Connection: keep-alive ").unwrap();
    assert_eq!(field_line.name, "Connection");
    assert_eq!(field_line.value, "keep-alive");

    // Invalid (whitespace in field name)
    assert!(HttpField::from_str("Connection : keep-alive").is_err());
}

#[test]
fn http_test_field_line_to_str() {
    let field_line = HttpField {
        name: String::from("Connection"),
        value: String::from("keep-alive"),
    };

    assert_eq!(field_line.render(), "Connection: keep-alive");
}

#[test]
fn http_test_header_from_str_valid() {
    // Valid (Request with no field lines)
    let header: HttpHeader = HttpHeader::from_str("GET /index.html HTTP/1.1\r\n").unwrap();
    if let HttpStartLine::Request(req) = &header.start_line {
        assert_eq!(req.method, HttpMethod::Get);
        assert_eq!(req.target, String::from("/index.html"));
        assert_eq!(req.http_version, HttpVersion::HTTP11);
    } else {
        panic!("Expected Request");
    }

    // Valid (Request with field lines)
    let header: HttpHeader = HttpHeader::from_str(
        "GET /index.html HTTP/1.1\r\nConnection: keep-alive\r\nHost: localhost:42\r\n",
    )
    .unwrap();
    if let HttpStartLine::Request(req) = &header.start_line {
        assert_eq!(req.method, HttpMethod::Get);
        assert_eq!(req.target, String::from("/index.html"));
        assert_eq!(req.http_version, HttpVersion::HTTP11);
    } else {
        panic!("Expected Request");
    }
    assert_eq!(header.field_lines.get("connection").unwrap(), "keep-alive");
    assert_eq!(header.field_lines.get("host").unwrap(), "localhost:42");

    // Valid (Response with no field lines)
    let header: HttpHeader = HttpHeader::from_str("HTTP/1.1 200 OK\r\n").unwrap();
    if let HttpStartLine::Response(resp) = &header.start_line {
        assert_eq!(resp.http_version, HttpVersion::HTTP11);
        assert_eq!(resp.status_code, HttpStatusCode::Okay);
    } else {
        panic!("Expected Response");
    }

    // Valid (Response with field lines)
    let header: HttpHeader = HttpHeader::from_str(
        "HTTP/1.1 200 OK\r\nContent-Type: text/html\r\nContent-Length: 1337\r\n",
    )
    .unwrap();
    if let HttpStartLine::Response(resp) = &header.start_line {
        assert_eq!(resp.http_version, HttpVersion::HTTP11);
        assert_eq!(resp.status_code, HttpStatusCode::Okay);
    } else {
        panic!("Expected Response");
    }

    assert_eq!(header.field_lines.get("content-type").unwrap(), "text/html");
    assert_eq!(header.field_lines.get("content-length").unwrap(), "1337");
}

#[test]
fn http_test_header_from_str_invalid() {
    // Invalid (Bad status code)
    assert!(HttpHeader::from_str("HTTP/1.1 777 Wtf\r\nContent-Type: text/html\r\n").is_err());
}

#[test]
fn http_test_header_to_str() {
    let start_line = HttpStartLine::Request(
        HttpRequestLine::from_str("GET /index.html HTTP/1.1").unwrap(),
    );
    let mut field_lines = HeaderFields::new();
    field_lines.insert(String::from("connection"), String::from("keep-alive"));
    field_lines.insert(String::from("host"), String::from("localhost:42"));

    let _header = HttpHeader {
        start_line,
        field_lines,
    };
}

#[test]
fn header_render_is_deterministic_and_reparses() {
    let start_line = HttpStartLine::Request(
        HttpRequestLine::from_str("GET /index.html HTTP/1.1").unwrap(),
    );
    let mut field_lines = HeaderFields::new();
    field_lines.insert(String::from("connection"), String::from("keep-alive"));
    field_lines.insert(String::from("host"), String::from("localhost:42"));

    let header = HttpHeader {
        start_line,
        field_lines,
    };

    // rendering is deterministic, and the field set survives a reparse
    // (field order is not part of the wire contract and is not asserted)
    let rendered = header.render();
    assert_eq!(header.render(), rendered);
    let again = HttpHeader::from_str(&rendered).unwrap();
    assert_eq!(again.field_lines.len(), 2);
    assert_eq!(again.field_lines.get("connection").unwrap(), "keep-alive");
    assert_eq!(again.field_lines.get("host").unwrap(), "localhost:42");
}

#[test]
fn request_header_round_trips_through_render() {
    let raw = "GET /index.html HTTP/1.1\r\nHost: localhost:42\r\nConnection: keep-alive\r\n\r\n";
    let header = HttpHeader::from_str(raw).unwrap();
    let rendered = header.render();
    let again = HttpHeader::from_str(&rendered).unwrap();

    if let (HttpStartLine::Request(a), HttpStartLine::Request(b)) =
        (&header.start_line, &again.start_line)
    {
        assert_eq!(a.method, b.method);
        assert_eq!(a.target, b.target);
        assert_eq!(a.http_version, b.http_version);
    } else {
        panic!("Expected Request on both sides");
    }
    assert_eq!(again.field_lines.len(), header.field_lines.len());
    assert_eq!(again.field_lines.get("host").unwrap(), "localhost:42");
    assert_eq!(again.field_lines.get("connection").unwrap(), "keep-alive");
    // rendering is deterministic: a third pass gives the same bytes
    assert_eq!(again.render(), rendered);
}

#[test]
fn duplicate_field_keeps_last_occurrence() {
    let header = HttpHeader::from_str(
        "GET / HTTP/1.1\r\nX-Tag: first\r\nX-Tag: second\r\n\r\n",
    )
    .unwrap();
    assert_eq!(header.field_lines.get("x-tag").unwrap(), "second");
    assert_eq!(header.field_lines.len(), 1);
}

#[test]
fn parse_error_variants_are_distinguished() {
    assert_eq!(
        HttpRequestLine::from_str("FOO / HTTP/1.1").unwrap_err(),
        Error::UnsupportedMethod
    );
    assert_eq!(
        HttpRequestLine::from_str("GET / HTTP/4.2").unwrap_err(),
        Error::UnsupportedVersion
    );
    assert_eq!(
        HttpStatusLine::from_str("HTTP/1.1 777 Wtf").unwrap_err(),
        Error::UnsupportedStatusCode
    );
    assert_eq!(
        HttpStatusLine::from_str("HTTP/1.1 abc Wtf").unwrap_err(),
        Error::Malformed
    );
    assert_eq!(
        HttpField::from_str("no colon here").unwrap_err(),
        Error::Malformed
    );
    assert_eq!(HttpHeader::from_str("").unwrap_err(), Error::Malformed);
}

#[test]
fn status_code_maps_to_numbers_and_reasons() {
    assert_eq!(HttpStatusCode::Okay.code(), 200);
    assert_eq!(HttpStatusCode::BadRequest.code(), 400);
    assert_eq!(HttpStatusCode::NotFound.code(), 404);
    assert_eq!(HttpStatusCode::RequestTimeout.code(), 408);
    assert_eq!(HttpStatusCode::ContentTooLarge.code(), 413);
    assert_eq!(HttpStatusCode::InternalServorError.code(), 500);
    assert_eq!(HttpStatusCode::NotImplemented.code(), 501);
    assert_eq!(HttpStatusCode::ServiceUnavailable.code(), 503);
    assert_eq!(HttpStatusCode::HTTPVersionNotSupported.code(), 505);
    assert_eq!(HttpStatusCode::ContentTooLarge.reason(), "Content Too Large");
    assert_eq!(HttpStatusCode::from_code(503).unwrap(), HttpStatusCode::ServiceUnavailable);
    assert_eq!(
        HttpStatusCode::from_code(999).unwrap_err(),
        Error::UnsupportedStatusCode
    );
}

#[test]
fn new_response_and_to_bytes_frame_the_message() {
    let body = b"hello".to_vec();
    let msg = HttpMessage::new_response(
        HttpVersion::HTTP11,
        HttpStatusCode::Okay,
        &[("Server", "Helios/13.37"), ("Content-Length", "5")],
        Some(body),
    );
    let bytes = msg.to_bytes();
    assert_eq!(
        bytes,
        b"HTTP/1.1 200 OK\r\nServer: Helios/13.37\r\nContent-Length: 5\r\n\r\nhello".to_vec()
    );
}

#[test]
fn head_style_response_without_body_still_frames_header() {
    let msg = HttpMessage::new_response(
        HttpVersion::HTTP11,
        HttpStatusCode::Okay,
        &[("Content-Length", "5")],
        None,
    );
    let bytes = msg.to_bytes();
    assert_eq!(bytes, b"HTTP/1.1 200 OK\r\nContent-Length: 5\r\n\r\n".to_vec());
}

#[test]
fn parse_number_helpers_reject_garbage_and_overflow() {
    assert_eq!(helios::parse_usize("0"), Some(0));
    assert_eq!(helios::parse_usize("1337"), Some(1337));
    assert_eq!(helios::parse_usize(""), None);
    assert_eq!(helios::parse_usize("12a"), None);
    assert_eq!(helios::parse_usize("-1"), None);
    assert_eq!(helios::parse_usize("99999999999999999999999999"), None);
    assert_eq!(helios::http::parse_u16("65535"), Some(65535));
    assert_eq!(helios::http::parse_u16("65536"), None);
}
