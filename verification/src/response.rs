//! The standard response envelope: given a status, a date string and the
//! content, builds the response message with the server identity,
//! `Content-Length`, date and persistence hint attached. A response that
//! suppresses its body (answering a HEAD request) still reports the true
//! length of the content it would have sent — that rule is part of the
//! contract here, not a habit of the caller.

use vstd::prelude::*;

use crate::chars::push_char;
use crate::http::{HeaderFields, HttpHeader, HttpMessage, HttpStartLine, HttpStatusCode,
    HttpStatusLine, HttpVersion, StartModel, StatusLineModel, insert_field, lookup,
    lemma_insert_field_missing};

verus! {

/// The decimal digit character of a value below ten.
pub open spec fn dec_digit(d: nat) -> char {
    (('0' as u32) + d) as char
}

/// The decimal rendering of a number, most significant digit first.
pub open spec fn fmt_dec(n: nat) -> Seq<char>
    decreases n,
{
    if n < 10 {
        seq![dec_digit(n)]
    } else {
        fmt_dec(n / 10) + seq![dec_digit(n % 10)]
    }
}

/// Renders a number in decimal.
pub fn usize_to_string(n: usize) -> (r: String)
    ensures
        r@ == fmt_dec(n as nat),
    decreases n,
{
    if n < 10 {
        let c = (48 + (n as u8)) as char;
        let mut out = String::new();
        push_char(&mut out, c);
        proof {
            assert(out@ =~= seq![dec_digit(n as nat)]);
        }
        out
    } else {
        let mut out = usize_to_string(n / 10);
        let c = (48 + ((n % 10) as u8)) as char;
        push_char(&mut out, c);
        proof {
            assert(out@ =~= fmt_dec((n / 10) as nat) + seq![dec_digit((n % 10) as nat)]);
        }
        out
    }
}

/// The length of the content a response carries, whether or not it sends it.
pub open spec fn spec_content_len(body: Option<Seq<u8>>) -> nat {
    match body {
        Some(b) => b.len(),
        None => 0,
    }
}

/// The field entries of the standard response envelope.
pub open spec fn spec_response_fields(content_len: nat, date: Seq<char>) -> Seq<
    (Seq<char>, Seq<char>),
> {
    seq![
        ("Server"@, "Helios/13.37"@),
        ("Content-Length"@, fmt_dec(content_len)),
        ("Date"@, date),
        ("Connection"@, "keep-alive"@),
    ]
}

/// Builds the standard response envelope around the given content. The
/// `Content-Length` field always reports the true content length; when
/// `send_body` is false (a HEAD answer) the body itself is withheld but the
/// reported length does not change.
pub fn create_response(
    status_code: HttpStatusCode,
    date: &str,
    body: Option<Vec<u8>>,
    send_body: bool,
) -> (r: HttpMessage)
    ensures
        r@.header.start == StartModel::Response(
            StatusLineModel { version: HttpVersion::HTTP11, code: status_code },
        ),
        r@.header.fields == spec_response_fields(
            spec_content_len(
                match body {
                    Some(ref b) => Some(b@),
                    None => None,
                },
            ),
            date@,
        ),
        lookup(r@.header.fields, "Content-Length"@) == Some(
            fmt_dec(
                spec_content_len(
                    match body {
                        Some(ref b) => Some(b@),
                        None => None,
                    },
                ),
            ),
        ),
        r@.body == if send_body {
            Some(
                match body {
                    Some(ref b) => b@,
                    None => Seq::<u8>::empty(),
                },
            )
        } else {
            None::<Seq<u8>>
        },
{
    proof {
        reveal_strlit("Server");
        reveal_strlit("Content-Length");
        reveal_strlit("Date");
        reveal_strlit("Connection");
    }
    let content = match body {
        Some(b) => b,
        None => Vec::new(),
    };
    let length = usize_to_string(content.len());

    let mut fields = HeaderFields::new();
    proof {
        assert(insert_field(fields@, "Server"@, "Helios/13.37"@) =~~= seq![
            ("Server"@, "Helios/13.37"@),
        ]);
    }
    fields.insert(String::from_str("Server"), String::from_str("Helios/13.37"));
    let ghost f1 = fields@;
    proof {
        assert(f1 =~~= seq![("Server"@, "Helios/13.37"@)]);
        assert(f1[0].0 == "Server"@);
        assert("Server"@.len() != "Content-Length"@.len());
        assert(f1[0].0 != "Content-Length"@);
        lemma_insert_field_missing(f1, "Content-Length"@, length@);
        assert(insert_field(f1, "Content-Length"@, length@) =~~= f1.push(
            ("Content-Length"@, length@),
        ));
    }
    fields.insert(String::from_str("Content-Length"), length);
    let ghost f2 = fields@;
    proof {
        assert(f2 =~~= seq![("Server"@, "Helios/13.37"@), ("Content-Length"@, length@)]);
        assert(f2[0].0 == "Server"@ && f2[1].0 == "Content-Length"@);
        assert("Server"@.len() != "Date"@.len());
        assert("Content-Length"@.len() != "Date"@.len());
        assert(f2[0].0 != "Date"@ && f2[1].0 != "Date"@);
        lemma_insert_field_missing(f2, "Date"@, date@);
        assert(insert_field(f2, "Date"@, date@) =~~= f2.push(("Date"@, date@)));
    }
    fields.insert(String::from_str("Date"), date.to_owned());
    let ghost f3 = fields@;
    proof {
        assert(f3 =~~= seq![
            ("Server"@, "Helios/13.37"@),
            ("Content-Length"@, length@),
            ("Date"@, date@),
        ]);
        assert(f3[0].0 == "Server"@ && f3[1].0 == "Content-Length"@ && f3[2].0 == "Date"@);
        assert("Server"@.len() != "Connection"@.len());
        assert("Content-Length"@.len() != "Connection"@.len());
        assert("Date"@.len() != "Connection"@.len());
        assert(f3[0].0 != "Connection"@ && f3[1].0 != "Connection"@ && f3[2].0 != "Connection"@);
        lemma_insert_field_missing(f3, "Connection"@, "keep-alive"@);
        assert(insert_field(f3, "Connection"@, "keep-alive"@) =~~= f3.push(
            ("Connection"@, "keep-alive"@),
        ));
    }
    fields.insert(String::from_str("Connection"), String::from_str("keep-alive"));
    proof {
        assert(fields@ =~~= spec_response_fields(content@.len(), date@));
        let fs = spec_response_fields(content@.len(), date@);
        let fs1 = fs.drop_first();
        assert(fs[0].0 == "Server"@);
        assert(fs[0].0 != "Content-Length"@);
        assert(fs1[0] == fs[1]);
        assert(fs1[0].0 == "Content-Length"@);
        assert(lookup(fs, "Content-Length"@) == lookup(fs1, "Content-Length"@));
        assert(lookup(fs1, "Content-Length"@) == Some(fs1[0].1));
        assert(fs1[0].1 == fmt_dec(content@.len()));
    }

    let header = HttpHeader {
        start_line: HttpStartLine::Response(
            HttpStatusLine { http_version: HttpVersion::HTTP11, status_code },
        ),
        field_lines: fields,
    };
    HttpMessage { header, body: if send_body {
        Some(content)
    } else {
        None
    } }
}

} // verus!
