//! The same wire-codec behavior, exercised through the collapsed final
//! design's types a second time: the engine once carried two snapshots of
//! the codec, and both snapshots' expectations must keep holding.

use helios::http::{
    HeaderFields, HttpField, HttpHeader, HttpMethod, HttpRequestLine, HttpStartLine,
    HttpStatusCode, HttpStatusLine, HttpVersion,
};

#[test]
fn http_parser_test_status_line_from_str() {
    // Valid (with optional description)
    let status_line: HttpStatusLine = HttpStatusLine::from_str("HTTP/1.1 200 OK").unwrap();
    assert_eq!(status_line.http_version, HttpVersion::HTTP11);
    assert_eq!(status_line.status_code, HttpStatusCode::Okay);

    // Valid (without optional description)
    let status_line: HttpStatusLine = HttpStatusLine::from_str("HTTP/1.1 200 ").unwrap();
    assert_eq!(status_line.http_version, HttpVersion::HTTP11);
    assert_eq!(status_line.status_code, HttpStatusCode::Okay);

    // Invalid (invalid response code)
    assert!(HttpStatusLine::from_str("HTTP/1.1 1337 Wtf").is_err());

    // Invalid (invalid HTTP version)
    assert!(HttpStatusLine::from_str("HTTP/4.2 200 OK").is_err());

    // Invalid (missing trailing space)
    assert!(HttpStatusLine::from_str("HTTP/1.1 200").is_err());

    // Invalid (multiple spaces between tokens)
    assert!(HttpStatusLine::from_str("HTTP/1.1  200 OK").is_err());

    // Invalid (extra trailing tokens)
    assert!(HttpStatusLine::from_str("HTTP/1.1 200 OK WTF").is_err());

    // Invalid (malformed)
    assert!(HttpStatusLine::from_str("").is_err());

    // Invalid (malformed)
    assert!(HttpStatusLine::from_str("\r\n").is_err());

    // Invalid (malformed)
    assert!(HttpStatusLine::from_str("Hack the planet!").is_err());
}

#[test]
fn http_parser_test_status_line_to_str() {
    let status_line = HttpStatusLine {
        http_version: HttpVersion::HTTP11,
        status_code: HttpStatusCode::Okay,
    };

    assert_eq!(status_line.render(), "HTTP/1.1 200 OK");
}

#[test]
fn http_parser_test_request_line_from_str() {
    // Valid
    let request_line: HttpRequestLine =
        HttpRequestLine::from_str("GET /index.html HTTP/1.1").unwrap();
    assert_eq!(request_line.method, HttpMethod::Get);
    assert_eq!(request_line.target, String::from("/index.html"));
    assert_eq!(request_line.http_version, HttpVersion::HTTP11);

    // Invalid (invalid method)
    assert!(HttpRequestLine::from_str("FOO / HTTP/1.1").is_err());

    // Invalid (invalid HTTP version)
    assert!(HttpRequestLine::from_str("GET / HTTP/4.2").is_err());

    // Invalid (target contains whitespace)
    assert!(HttpRequestLine::from_str("GET /guest book.html HTTP/4.2").is_err());

    // Invalid (multiple spaces between tokens)
    assert!(HttpRequestLine::from_str("GET  / HTTP/1.1").is_err());

    // Invalid (extra trailing tokens)
    assert!(HttpRequestLine::from_str("GET / HTTP/1.1 WTF").is_err());

    // Invalid (malformed)
    assert!(HttpRequestLine::from_str("\r\n").is_err());

    // Invalid (malformed)
    assert!(HttpRequestLine::from_str("Hack the planet!").is_err());
}

#[test]
fn http_parser_test_request_line_to_str() {
    let request_line = HttpRequestLine {
        method: HttpMethod::Get,
        target: String::from("/index.html"),
        http_version: HttpVersion::HTTP11,
    };

    assert_eq!(request_line.render(), "GET /index.html HTTP/1.1")
}

#[test]
fn http_parser_test_field_line_from_str() {
    // Valid
    let field_line: HttpField = HttpField::from_str("Connection:keep-alive").unwrap();
    assert_eq!(field_line.name, "Connection");
    assert_eq!(field_line.value, "keep-alive");

    // Valid (field value contains colon)
    let field_line: HttpField = HttpField::from_str("Host:localhost:42").unwrap();
    assert_eq!(field_line.name, "Host");
    assert_eq!(field_line.value, "localhost:42");

    // Valid (optional whitespace)
    let field_line: HttpField = HttpField::from_str("Connection: keep-alive").unwrap();
    assert_eq!(field_line.name, "Connection");
    assert_eq!(field_line.value, "keep-alive");

    // Valid (optional whitespace)
    let field_line: HttpField = HttpField::from_str("Connection:keep-alive ").unwrap();
    assert_eq!(field_line.name, "Connection");
    assert_eq!(field_line.value, "keep-alive");

    // Valid (optional whitespace)
    let field_line: HttpField = HttpField::from_str("Connection: keep-alive ").unwrap();
    assert_eq!(field_line.name, "Connection");
    assert_eq!(field_line.value, "keep-alive");

    // Invalid (whitespace in field name)
    assert!(HttpField::from_str("Connection : keep-alive").is_err());
}

#[test]
fn http_parser_test_field_line_to_str() {
    let field_line = HttpField {
        name: String::from("Connection"),
        value: String::from("keep-alive"),
    };

    assert_eq!(field_line.render(), "Connection: keep-alive");
}

#[test]
fn http_parser_test_header_from_str_valid() {
    // Valid (Request with no field lines)
    let header: HttpHeader = HttpHeader::from_str("GET /index.html HTTP/1.1\r\n").unwrap();
    if let HttpStartLine::Request(req) = &header.start_line {
        assert_eq!(req.method, HttpMethod::Get);
        assert_eq!(req.target, String::from("/index.html"));
        assert_eq!(req.http_version, HttpVersion::HTTP11);
    } else {
        panic!("Expected Request");
    }

    // Valid (Request with field lines)
    let header: HttpHeader = HttpHeader::from_str(
        "GET /index.html HTTP/1.1\r\nConnection: keep-alive\r\nHost: localhost:42\r\n",
    )
    .unwrap();
    if let HttpStartLine::Request(req) = &header.start_line {
        assert_eq!(req.method, HttpMethod::Get);
        assert_eq!(req.target, String::from("/index.html"));
        assert_eq!(req.http_version, HttpVersion::HTTP11);
    } else {
        panic!("Expected Request");
    }
    assert_eq!(header.field_lines.get("connection").unwrap(), "keep-alive");
    assert_eq!(header.field_lines.get("host").unwrap(), "localhost:42");

    // Valid (Response with no field lines)
    let header: HttpHeader = HttpHeader::from_str("HTTP/1.1 200 OK\r\n").unwrap();
    if let HttpStartLine::Response(resp) = &header.start_line {
        assert_eq!(resp.http_version, HttpVersion::HTTP11);
        assert_eq!(resp.status_code, HttpStatusCode::Okay);
    } else {
        panic!("Expected Response");
    }

    // Valid (Response with field lines)
    let header: HttpHeader = HttpHeader::from_str(
        "HTTP/1.1 200 OK\r\nContent-Type: text/html\r\nContent-Length: 1337\r\n",
    )
    .unwrap();
    if let HttpStartLine::Response(resp) = &header.start_line {
        assert_eq!(resp.http_version, HttpVersion::HTTP11);
        assert_eq!(resp.status_code, HttpStatusCode::Okay);
    } else {
        panic!("Expected Response");
    }

    assert_eq!(header.field_lines.get("content-type").unwrap(), "text/html");
    assert_eq!(header.field_lines.get("content-length").unwrap(), "1337");
}

#[test]
fn http_parser_test_header_from_str_invalid() {
    // Invalid (Bad status code)
    assert!(HttpHeader::from_str("HTTP/1.1 777 Wtf\r\nContent-Type: text/html\r\n").is_err());
}

#[test]
fn http_parser_test_header_to_str() {
    let start_line = HttpStartLine::Request(
        HttpRequestLine::from_str("GET /index.html HTTP/1.1").unwrap(),
    );
    let mut field_lines = HeaderFields::new();
    field_lines.insert(String::from("connection"), String::from("keep-alive"));
    field_lines.insert(String::from("host"), String::from("localhost:42"));

    let _header = HttpHeader {
        start_line,
        field_lines,
    };
}
