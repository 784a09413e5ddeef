use helios::http::{HttpStartLine, HttpStatusCode};
use helios::response::create_response;

#[test]
fn envelope_reports_true_content_length() {
    let date = "Thu, 01 Jan 1970 00:00:00 GMT";
    let msg = create_response(
        HttpStatusCode::Okay,
        date,
        Some(b"hello".to_vec()),
        true,
    );
    assert!(matches!(msg.header.start_line, HttpStartLine::Response(_)));
    assert_eq!(msg.header.field_lines.get("Content-Length").unwrap(), "5");
    assert_eq!(msg.header.field_lines.get("Server").unwrap(), "Helios/13.37");
    assert_eq!(msg.header.field_lines.get("Date").unwrap(), date);
    assert_eq!(msg.header.field_lines.get("Connection").unwrap(), "keep-alive");
    assert_eq!(msg.body.as_deref(), Some(b"hello".as_slice()));
}

#[test]
fn suppressed_body_still_reports_its_length() {
    // the HEAD rule: the body is withheld, its true length is not
    let date = "Thu, 01 Jan 1970 00:00:00 GMT";
    let msg = create_response(
        HttpStatusCode::Okay,
        date,
        Some(b"twelve bytes".to_vec()),
        false,
    );
    assert_eq!(msg.header.field_lines.get("Content-Length").unwrap(), "12");
    assert!(msg.body.is_none());
}

#[test]
fn missing_content_has_length_zero() {
    let date = "Thu, 01 Jan 1970 00:00:00 GMT";
    let msg = create_response(HttpStatusCode::NotFound, date, None, true);
    assert_eq!(msg.header.field_lines.get("Content-Length").unwrap(), "0");
    assert_eq!(msg.body.as_deref(), Some(b"".as_slice()));

    let long = vec![0u8; 1048576];
    let msg = create_response(HttpStatusCode::Okay, date, Some(long), false);
    assert_eq!(msg.header.field_lines.get("Content-Length").unwrap(), "1048576");
}

#[test]
fn error_envelope_renders_the_fixed_reason() {
    let date = "Thu, 01 Jan 1970 00:00:00 GMT";
    let msg = create_response(HttpStatusCode::InternalServorError, date, None, true);
    let bytes = msg.to_bytes();
    let text = String::from_utf8(bytes).unwrap();
    assert!(text.starts_with("HTTP/1.1 500 Internal Server Error\r\n"));
}
