//! The wire codec: HTTP/1.x start lines, header fields, header blocks and
//! messages, with parsing and rendering proved inverse to each other.

use vstd::prelude::*;

use crate::chars::{
    digits_value, is_space, is_space_char, lower, parse_usize, str_eq, str_find_char,
    to_ascii_lowercase, trim, trim_str, find_char,
};
use crate::lex::{header_lines, split_at_char, split_tokens, split_header_lines, views};

verus! {

/// Why a byte stream was rejected by the codec. `Malformed` is a structural
/// fault; the `Unsupported*` variants name a token outside the closed
/// enumerations and map to distinct status codes at the connection layer.
#[derive(Clone, Copy, Debug, PartialEq, Eq, Structural)]
pub enum Error {
    Malformed,
    UnsupportedMethod,
    UnsupportedVersion,
    UnsupportedStatusCode,
}

/// The protocol versions this engine speaks; the version decides the default
/// persistence policy.
#[derive(Clone, Copy, Debug, PartialEq, Eq, Structural)]
pub enum HttpVersion {
    HTTP10,
    HTTP11,
}

/// The textual token of a version.
pub open spec fn fmt_version(v: HttpVersion) -> Seq<char> {
    match v {
        HttpVersion::HTTP10 => "HTTP/1.0"@,
        HttpVersion::HTTP11 => "HTTP/1.1"@,
    }
}

/// Which version a token names, if any.
pub open spec fn spec_parse_version(t: Seq<char>) -> Result<HttpVersion, Error> {
    if t == "HTTP/1.0"@ {
        Ok(HttpVersion::HTTP10)
    } else if t == "HTTP/1.1"@ {
        Ok(HttpVersion::HTTP11)
    } else {
        Err(Error::UnsupportedVersion)
    }
}

impl HttpVersion {
    /// The version's wire token.
    pub fn as_str(&self) -> (r: &'static str)
        ensures
            r@ == fmt_version(*self),
    {
        match self {
            HttpVersion::HTTP10 => "HTTP/1.0",
            HttpVersion::HTTP11 => "HTTP/1.1",
        }
    }

    /// Parses a version token; anything but the two supported tokens is
    /// `UnsupportedVersion`.
    pub fn from_str(s: &str) -> (r: Result<Self, Error>)
        ensures
            r == spec_parse_version(s@),
    {
        if str_eq(s, "HTTP/1.0") {
            Ok(HttpVersion::HTTP10)
        } else if str_eq(s, "HTTP/1.1") {
            Ok(HttpVersion::HTTP11)
        } else {
            Err(Error::UnsupportedVersion)
        }
    }
}

/// The status codes this engine can produce or accept.
#[derive(Clone, Copy, Debug, PartialEq, Eq, Structural)]
pub enum HttpStatusCode {
    Okay,
    BadRequest,
    NotFound,
    RequestTimeout,
    ContentTooLarge,
    InternalServorError,
    NotImplemented,
    ServiceUnavailable,
    HTTPVersionNotSupported,
}

/// The numeric value of a status code.
pub open spec fn code_num(c: HttpStatusCode) -> u16 {
    match c {
        HttpStatusCode::Okay => 200,
        HttpStatusCode::BadRequest => 400,
        HttpStatusCode::NotFound => 404,
        HttpStatusCode::RequestTimeout => 408,
        HttpStatusCode::ContentTooLarge => 413,
        HttpStatusCode::InternalServorError => 500,
        HttpStatusCode::NotImplemented => 501,
        HttpStatusCode::ServiceUnavailable => 503,
        HttpStatusCode::HTTPVersionNotSupported => 505,
    }
}

/// The decimal rendering of a status code's numeric value.
pub open spec fn fmt_code_num(c: HttpStatusCode) -> Seq<char> {
    match c {
        HttpStatusCode::Okay => "200"@,
        HttpStatusCode::BadRequest => "400"@,
        HttpStatusCode::NotFound => "404"@,
        HttpStatusCode::RequestTimeout => "408"@,
        HttpStatusCode::ContentTooLarge => "413"@,
        HttpStatusCode::InternalServorError => "500"@,
        HttpStatusCode::NotImplemented => "501"@,
        HttpStatusCode::ServiceUnavailable => "503"@,
        HttpStatusCode::HTTPVersionNotSupported => "505"@,
    }
}

/// The canonical reason phrase of a status code.
pub open spec fn fmt_reason(c: HttpStatusCode) -> Seq<char> {
    match c {
        HttpStatusCode::Okay => "OK"@,
        HttpStatusCode::BadRequest => "Bad Request"@,
        HttpStatusCode::NotFound => "Not Found"@,
        HttpStatusCode::RequestTimeout => "Request Timeout"@,
        HttpStatusCode::ContentTooLarge => "Content Too Large"@,
        HttpStatusCode::InternalServorError => "Internal Server Error"@,
        HttpStatusCode::NotImplemented => "Not Implemented"@,
        HttpStatusCode::ServiceUnavailable => "Service Unavailable"@,
        HttpStatusCode::HTTPVersionNotSupported => "HTTP Version Not Supported"@,
    }
}

/// Which status code a numeric value names, if any.
pub open spec fn spec_code_from_num(n: u16) -> Result<HttpStatusCode, Error> {
    if n == 200 {
        Ok(HttpStatusCode::Okay)
    } else if n == 400 {
        Ok(HttpStatusCode::BadRequest)
    } else if n == 404 {
        Ok(HttpStatusCode::NotFound)
    } else if n == 408 {
        Ok(HttpStatusCode::RequestTimeout)
    } else if n == 413 {
        Ok(HttpStatusCode::ContentTooLarge)
    } else if n == 500 {
        Ok(HttpStatusCode::InternalServorError)
    } else if n == 501 {
        Ok(HttpStatusCode::NotImplemented)
    } else if n == 503 {
        Ok(HttpStatusCode::ServiceUnavailable)
    } else if n == 505 {
        Ok(HttpStatusCode::HTTPVersionNotSupported)
    } else {
        Err(Error::UnsupportedStatusCode)
    }
}

impl HttpStatusCode {
    /// The numeric value of the status code.
    pub fn code(&self) -> (r: u16)
        ensures
            r == code_num(*self),
    {
        match self {
            HttpStatusCode::Okay => 200,
            HttpStatusCode::BadRequest => 400,
            HttpStatusCode::NotFound => 404,
            HttpStatusCode::RequestTimeout => 408,
            HttpStatusCode::ContentTooLarge => 413,
            HttpStatusCode::InternalServorError => 500,
            HttpStatusCode::NotImplemented => 501,
            HttpStatusCode::ServiceUnavailable => 503,
            HttpStatusCode::HTTPVersionNotSupported => 505,
        }
    }

    /// The decimal rendering of the numeric value.
    pub fn code_str(&self) -> (r: &'static str)
        ensures
            r@ == fmt_code_num(*self),
    {
        match self {
            HttpStatusCode::Okay => "200",
            HttpStatusCode::BadRequest => "400",
            HttpStatusCode::NotFound => "404",
            HttpStatusCode::RequestTimeout => "408",
            HttpStatusCode::ContentTooLarge => "413",
            HttpStatusCode::InternalServorError => "500",
            HttpStatusCode::NotImplemented => "501",
            HttpStatusCode::ServiceUnavailable => "503",
            HttpStatusCode::HTTPVersionNotSupported => "505",
        }
    }

    /// The canonical reason phrase.
    pub fn reason(&self) -> (r: &'static str)
        ensures
            r@ == fmt_reason(*self),
    {
        match self {
            HttpStatusCode::Okay => "OK",
            HttpStatusCode::BadRequest => "Bad Request",
            HttpStatusCode::NotFound => "Not Found",
            HttpStatusCode::RequestTimeout => "Request Timeout",
            HttpStatusCode::ContentTooLarge => "Content Too Large",
            HttpStatusCode::InternalServorError => "Internal Server Error",
            HttpStatusCode::NotImplemented => "Not Implemented",
            HttpStatusCode::ServiceUnavailable => "Service Unavailable",
            HttpStatusCode::HTTPVersionNotSupported => "HTTP Version Not Supported",
        }
    }

    /// Parses a numeric status code; an unknown number is
    /// `UnsupportedStatusCode`, never silently accepted.
    pub fn from_code(n: u16) -> (r: Result<Self, Error>)
        ensures
            r == spec_code_from_num(n),
    {
        if n == 200 {
            Ok(HttpStatusCode::Okay)
        } else if n == 400 {
            Ok(HttpStatusCode::BadRequest)
        } else if n == 404 {
            Ok(HttpStatusCode::NotFound)
        } else if n == 408 {
            Ok(HttpStatusCode::RequestTimeout)
        } else if n == 413 {
            Ok(HttpStatusCode::ContentTooLarge)
        } else if n == 500 {
            Ok(HttpStatusCode::InternalServorError)
        } else if n == 501 {
            Ok(HttpStatusCode::NotImplemented)
        } else if n == 503 {
            Ok(HttpStatusCode::ServiceUnavailable)
        } else if n == 505 {
            Ok(HttpStatusCode::HTTPVersionNotSupported)
        } else {
            Err(Error::UnsupportedStatusCode)
        }
    }
}

/// The request methods this engine implements.
#[derive(Clone, Copy, Debug, PartialEq, Eq, Structural)]
pub enum HttpMethod {
    Get,
    Head,
    Post,
}

/// The textual token of a method.
pub open spec fn fmt_method(m: HttpMethod) -> Seq<char> {
    match m {
        HttpMethod::Get => "GET"@,
        HttpMethod::Head => "HEAD"@,
        HttpMethod::Post => "POST"@,
    }
}

/// Which method a token names, if any; the match is case-sensitive and
/// exact, an unknown token is `UnsupportedMethod`.
pub open spec fn spec_parse_method(t: Seq<char>) -> Result<HttpMethod, Error> {
    if t == "GET"@ {
        Ok(HttpMethod::Get)
    } else if t == "HEAD"@ {
        Ok(HttpMethod::Head)
    } else if t == "POST"@ {
        Ok(HttpMethod::Post)
    } else {
        Err(Error::UnsupportedMethod)
    }
}

impl HttpMethod {
    /// The method's wire token.
    pub fn as_str(&self) -> (r: &'static str)
        ensures
            r@ == fmt_method(*self),
    {
        match self {
            HttpMethod::Get => "GET",
            HttpMethod::Head => "HEAD",
            HttpMethod::Post => "POST",
        }
    }

    /// Parses a method token.
    pub fn from_str(s: &str) -> (r: Result<Self, Error>)
        ensures
            r == spec_parse_method(s@),
    {
        if str_eq(s, "GET") {
            Ok(HttpMethod::Get)
        } else if str_eq(s, "HEAD") {
            Ok(HttpMethod::Head)
        } else if str_eq(s, "POST") {
            Ok(HttpMethod::Post)
        } else {
            Err(Error::UnsupportedMethod)
        }
    }
}

/// Mathematical model of a status line.
#[verifier::ext_equal]
pub struct StatusLineModel {
    pub version: HttpVersion,
    pub code: HttpStatusCode,
}

/// Mathematical model of a request line.
#[verifier::ext_equal]
pub struct ReqLineModel {
    pub method: HttpMethod,
    pub target: Seq<char>,
    pub version: HttpVersion,
}

/// Mathematical model of a start line.
#[verifier::ext_equal]
pub enum StartModel {
    Response(StatusLineModel),
    Request(ReqLineModel),
}

/// Mathematical model of a header block: a start line and the field
/// entries, in order, each a (name, value) pair of character sequences.
#[verifier::ext_equal]
pub struct HeaderModel {
    pub start: StartModel,
    pub fields: Seq<(Seq<char>, Seq<char>)>,
}

/// Mathematical model of a whole message.
#[verifier::ext_equal]
pub struct MessageModel {
    pub header: HeaderModel,
    pub body: Option<Seq<u8>>,
}

/// A `Result` of a viewable value, as seen through the view.
pub open spec fn res_model<T: View>(r: Result<T, Error>) -> Result<T::V, Error> {
    match r {
        Ok(v) => Ok(v@),
        Err(e) => Err(e),
    }
}

/// A decimal `u16` parse: the digits' value if there is at least one digit,
/// nothing else, and the value fits.
pub open spec fn spec_parse_u16(t: Seq<char>) -> Option<u16> {
    match digits_value(t) {
        Some(v) => if v <= u16::MAX {
            Some(v as u16)
        } else {
            None
        },
        None => None,
    }
}

/// Parses a decimal `u16`, rejecting empty input, non-digits and overflow.
pub fn parse_u16(s: &str) -> (r: Option<u16>)
    ensures
        r == spec_parse_u16(s@),
{
    match parse_usize(s) {
        Some(v) => {
            if v <= 65535 {
                Some(v as u16)
            } else {
                None
            }
        },
        None => {
            proof {
                if digits_value(s@) is Some {
                    assert(digits_value(s@)->Some_0 > usize::MAX);
                }
            }
            None
        },
    }
}

/// What parsing a status line from a start-line's tokens yields: the
/// version token, the numeric code, a (possibly empty) reason token that
/// must be present, and nothing after it.
pub open spec fn spec_parse_status_line(line: Seq<char>) -> Result<StatusLineModel, Error> {
    let ts = split_at_char(line, ' ');
    match spec_parse_version(ts[0]) {
        Err(e) => Err(e),
        Ok(version) => if ts.len() < 2 {
            Err(Error::Malformed)
        } else {
            match spec_parse_u16(ts[1]) {
                None => Err(Error::Malformed),
                Some(n) => match spec_code_from_num(n) {
                    Err(e) => Err(e),
                    Ok(code) => if ts.len() == 3 {
                        Ok(StatusLineModel { version, code })
                    } else {
                        Err(Error::Malformed)
                    },
                },
            }
        },
    }
}

/// What parsing a request line yields: a method token, a target token
/// (kept verbatim), a version token, and nothing after them.
pub open spec fn spec_parse_request_line(line: Seq<char>) -> Result<ReqLineModel, Error> {
    let ts = split_at_char(line, ' ');
    match spec_parse_method(ts[0]) {
        Err(e) => Err(e),
        Ok(method) => if ts.len() < 2 {
            Err(Error::Malformed)
        } else {
            let target = ts[1];
            if ts.len() < 3 {
                Err(Error::Malformed)
            } else {
                match spec_parse_version(ts[2]) {
                    Err(e) => Err(e),
                    Ok(version) => if ts.len() == 3 {
                        Ok(ReqLineModel { method, target, version })
                    } else {
                        Err(Error::Malformed)
                    },
                }
            }
        },
    }
}

/// The rendering of a status line: version, numeric code and canonical
/// reason phrase, separated by single spaces.
pub open spec fn fmt_status_line(m: StatusLineModel) -> Seq<char> {
    fmt_version(m.version) + " "@ + fmt_code_num(m.code) + " "@ + fmt_reason(m.code)
}

/// The rendering of a request line: method, target and version, separated
/// by single spaces.
pub open spec fn fmt_request_line(m: ReqLineModel) -> Seq<char> {
    fmt_method(m.method) + " "@ + m.target + " "@ + fmt_version(m.version)
}

/// A response status line: the version spoken and the outcome code. The
/// reason phrase is canonical on output and ignored on input.
#[derive(Debug)]
pub struct HttpStatusLine {
    pub http_version: HttpVersion,
    pub status_code: HttpStatusCode,
}

impl View for HttpStatusLine {
    type V = StatusLineModel;

    open spec fn view(&self) -> StatusLineModel {
        StatusLineModel { version: self.http_version, code: self.status_code }
    }
}

impl HttpStatusLine {
    /// Renders the status line, without a line terminator.
    pub fn render(&self) -> (r: String)
        ensures
            r@ == fmt_status_line(self@),
    {
        let mut out = String::new();
        out.append(self.http_version.as_str());
        out.append(" ");
        out.append(self.status_code.code_str());
        out.append(" ");
        out.append(self.status_code.reason());
        out
    }

    /// Parses a status line. The reason phrase is optional but the space
    /// introducing it is not, and nothing may follow it.
    pub fn from_str(s: &str) -> (r: Result<Self, Error>)
        ensures
            res_model(r) == spec_parse_status_line(s@),
    {
        let ts = split_tokens(s, ' ');
        proof {
            assert(views(ts@).len() == ts@.len());
            assert(views(ts@)[0] == ts@[0]@);
        }
        let http_version = match HttpVersion::from_str(ts[0]) {
            Ok(v) => v,
            Err(e) => {
                return Err(e);
            },
        };
        if ts.len() < 2 {
            return Err(Error::Malformed);
        }
        proof {
            assert(views(ts@)[1] == ts@[1]@);
        }
        let n = match parse_u16(ts[1]) {
            Some(n) => n,
            None => {
                return Err(Error::Malformed);
            },
        };
        let status_code = match HttpStatusCode::from_code(n) {
            Ok(c) => c,
            Err(e) => {
                return Err(e);
            },
        };
        if ts.len() == 3 {
            Ok(HttpStatusLine { http_version, status_code })
        } else {
            Err(Error::Malformed)
        }
    }
}

/// A request line: method, raw target string, version.
#[derive(Debug)]
pub struct HttpRequestLine {
    pub method: HttpMethod,
    pub target: String,
    pub http_version: HttpVersion,
}

impl View for HttpRequestLine {
    type V = ReqLineModel;

    open spec fn view(&self) -> ReqLineModel {
        ReqLineModel { method: self.method, target: self.target@, version: self.http_version }
    }
}

impl HttpRequestLine {
    /// Renders the request line, without a line terminator.
    pub fn render(&self) -> (r: String)
        ensures
            r@ == fmt_request_line(self@),
    {
        let mut out = String::new();
        out.append(self.method.as_str());
        out.append(" ");
        out.append(self.target.as_str());
        out.append(" ");
        out.append(self.http_version.as_str());
        out
    }

    /// Parses a request line: exactly three space-separated tokens.
    pub fn from_str(s: &str) -> (r: Result<Self, Error>)
        ensures
            res_model(r) == spec_parse_request_line(s@),
    {
        let ts = split_tokens(s, ' ');
        proof {
            assert(views(ts@).len() == ts@.len());
            assert(views(ts@)[0] == ts@[0]@);
        }
        let method = match HttpMethod::from_str(ts[0]) {
            Ok(m) => m,
            Err(e) => {
                return Err(e);
            },
        };
        if ts.len() < 2 {
            return Err(Error::Malformed);
        }
        proof {
            assert(views(ts@)[1] == ts@[1]@);
        }
        let target = ts[1].to_owned();
        if ts.len() < 3 {
            return Err(Error::Malformed);
        }
        proof {
            assert(views(ts@)[2] == ts@[2]@);
        }
        let http_version = match HttpVersion::from_str(ts[2]) {
            Ok(v) => v,
            Err(e) => {
                return Err(e);
            },
        };
        if ts.len() == 3 {
            Ok(HttpRequestLine { method, target, http_version })
        } else {
            Err(Error::Malformed)
        }
    }
}

/// What parsing a field line yields: the text before the first colon as the
/// name (rejected if it holds whitespace), the rest trimmed as the value.
pub open spec fn spec_parse_field(line: Seq<char>) -> Result<(Seq<char>, Seq<char>), Error> {
    match find_char(line, ':') {
        None => Err(Error::Malformed),
        Some(i) => {
            let name = line.subrange(0, i);
            if exists|j: int| 0 <= j < name.len() && is_space(#[trigger] name[j]) {
                Err(Error::Malformed)
            } else {
                Ok((name, trim(line.subrange(i + 1, line.len() as int))))
            }
        },
    }
}

/// The rendering of one field line, without a terminator.
pub open spec fn fmt_field(name: Seq<char>, value: Seq<char>) -> Seq<char> {
    name + ": "@ + value
}

/// One header field: a name and a value.
#[derive(Debug)]
pub struct HttpField {
    pub name: String,
    pub value: String,
}

impl View for HttpField {
    type V = (Seq<char>, Seq<char>);

    open spec fn view(&self) -> (Seq<char>, Seq<char>) {
        (self.name@, self.value@)
    }
}

impl HttpField {
    /// Renders the field as `name: value`, without a terminator.
    pub fn render(&self) -> (r: String)
        ensures
            r@ == fmt_field(self.name@, self.value@),
    {
        let mut out = String::new();
        out.append(self.name.as_str());
        out.append(": ");
        out.append(self.value.as_str());
        out
    }

    /// Parses a field line at its first colon; the name must be free of
    /// whitespace, the value is trimmed of surrounding whitespace.
    pub fn from_str(s: &str) -> (r: Result<Self, Error>)
        ensures
            res_model(r) == spec_parse_field(s@),
    {
        let n = s.unicode_len();
        let i = match str_find_char(s, ':') {
            Some(i) => i,
            None => {
                return Err(Error::Malformed);
            },
        };
        proof {
            crate::chars::lemma_find_char(s@, ':');
        }
        let name = s.substring_char(0, i);
        proof {
            assert(name@ =~= s@.subrange(0, i as int));
        }
        let mut j: usize = 0;
        let name_len = i;
        while j < name_len
            invariant
                name_len == name@.len(),
                name@ == s@.subrange(0, name_len as int),
                find_char(s@, ':') == Some(name_len as int),
                name_len < s@.len(),
                0 <= j <= name_len,
                forall|k: int| 0 <= k < j ==> !is_space(#[trigger] name@[k]),
            decreases name_len - j,
        {
            if is_space_char(name.get_char(j)) {
                proof {
                    assert(is_space(name@[j as int]));
                }
                return Err(Error::Malformed);
            }
            j = j + 1;
        }
        let raw_value = s.substring_char(i + 1, n);
        proof {
            assert(raw_value@ =~= s@.subrange(i + 1, s@.len() as int));
        }
        let value = trim_str(raw_value);
        Ok(HttpField { name: name.to_owned(), value })
    }
}

/// The value stored under a name: the first (and, in a header built by this
/// codec, only) entry carrying it.
pub open spec fn lookup(fs: Seq<(Seq<char>, Seq<char>)>, name: Seq<char>) -> Option<Seq<char>>
    decreases fs.len(),
{
    if fs.len() == 0 {
        None
    } else if fs[0].0 == name {
        Some(fs[0].1)
    } else {
        lookup(fs.drop_first(), name)
    }
}

/// Entry insertion with last-occurrence-wins semantics: an existing entry of
/// the same name keeps its position but takes the new value; otherwise the
/// entry is appended.
pub open spec fn insert_field(
    fs: Seq<(Seq<char>, Seq<char>)>,
    name: Seq<char>,
    value: Seq<char>,
) -> Seq<(Seq<char>, Seq<char>)>
    decreases fs.len(),
{
    if fs.len() == 0 {
        seq![(name, value)]
    } else if fs[0].0 == name {
        seq![(name, value)] + fs.drop_first()
    } else {
        seq![fs[0]] + insert_field(fs.drop_first(), name, value)
    }
}

proof fn lemma_insert_field_at(fs: Seq<(Seq<char>, Seq<char>)>, name: Seq<char>, value: Seq<char>, k: int)
    requires
        0 <= k < fs.len(),
        fs[k].0 == name,
        forall|j: int| 0 <= j < k ==> (#[trigger] fs[j]).0 != name,
    ensures
        insert_field(fs, name, value) == fs.update(k, (name, value)),
    decreases k,
{
    if k == 0 {
        assert(insert_field(fs, name, value) =~~= fs.update(0, (name, value)));
    } else {
        assert(forall|j: int|
            0 <= j < fs.drop_first().len() ==> #[trigger] fs.drop_first()[j] == fs[j + 1]);
        lemma_insert_field_at(fs.drop_first(), name, value, k - 1);
        assert(insert_field(fs, name, value) =~~= fs.update(k, (name, value)));
    }
}

pub(crate) proof fn lemma_insert_field_missing(fs: Seq<(Seq<char>, Seq<char>)>, name: Seq<char>, value: Seq<char>)
    requires
        forall|j: int| 0 <= j < fs.len() ==> (#[trigger] fs[j]).0 != name,
    ensures
        insert_field(fs, name, value) == fs.push((name, value)),
    decreases fs.len(),
{
    if fs.len() == 0 {
        assert(insert_field(fs, name, value) =~~= fs.push((name, value)));
    } else {
        assert(forall|j: int|
            0 <= j < fs.drop_first().len() ==> #[trigger] fs.drop_first()[j] == fs[j + 1]);
        lemma_insert_field_missing(fs.drop_first(), name, value);
        assert(insert_field(fs, name, value) =~~= fs.push((name, value)));
    }
}

proof fn lemma_lookup_at(fs: Seq<(Seq<char>, Seq<char>)>, name: Seq<char>, k: int)
    requires
        0 <= k < fs.len(),
        fs[k].0 == name,
        forall|j: int| 0 <= j < k ==> (#[trigger] fs[j]).0 != name,
    ensures
        lookup(fs, name) == Some(fs[k].1),
    decreases k,
{
    if k > 0 {
        assert(forall|j: int|
            0 <= j < fs.drop_first().len() ==> #[trigger] fs.drop_first()[j] == fs[j + 1]);
        lemma_lookup_at(fs.drop_first(), name, k - 1);
    }
}

proof fn lemma_lookup_missing(fs: Seq<(Seq<char>, Seq<char>)>, name: Seq<char>)
    requires
        forall|j: int| 0 <= j < fs.len() ==> (#[trigger] fs[j]).0 != name,
    ensures
        lookup(fs, name) is None,
    decreases fs.len(),
{
    if fs.len() > 0 {
        assert(forall|j: int|
            0 <= j < fs.drop_first().len() ==> #[trigger] fs.drop_first()[j] == fs[j + 1]);
        lemma_lookup_missing(fs.drop_first(), name);
    }
}

/// The header fields of one message: a mapping from field name to a single
/// value. A message that repeats a field name keeps only the last
/// occurrence — a deliberate, documented policy of this codec; whether such
/// duplicates ought to be rejected instead is left open. Names are stored
/// exactly as given; the parser hands them over lower-cased.
#[derive(Debug)]
pub struct HeaderFields {
    fields: Vec<HttpField>,
}

impl View for HeaderFields {
    type V = Seq<(Seq<char>, Seq<char>)>;

    closed spec fn view(&self) -> Seq<(Seq<char>, Seq<char>)> {
        self.fields@.map_values(|f: HttpField| (f.name@, f.value@))
    }
}

impl HeaderFields {
    /// An empty field mapping.
    pub fn new() -> (r: Self)
        ensures
            r@ == Seq::<(Seq<char>, Seq<char>)>::empty(),
    {
        let r = HeaderFields { fields: Vec::new() };
        proof {
            assert(r@ =~= Seq::<(Seq<char>, Seq<char>)>::empty());
        }
        r
    }

    /// How many distinct entries the mapping holds.
    pub fn len(&self) -> (r: usize)
        ensures
            r == self@.len(),
    {
        self.fields.len()
    }

    /// The entries, in storage order.
    pub fn entries(&self) -> (r: &Vec<HttpField>)
        ensures
            r@.map_values(|f: HttpField| (f.name@, f.value@)) == self@,
    {
        &self.fields
    }

    /// Inserts an entry; an entry already carrying the name takes the new
    /// value in place, as a mapping would.
    pub fn insert(&mut self, name: String, value: String)
        ensures
            final(self)@ == insert_field(old(self)@, name@, value@),
    {
        let n = self.fields.len();
        let mut i: usize = 0;
        while i < n
            invariant
                n == self.fields.len(),
                0 <= i <= n,
                self@ == old(self)@,
                self.fields == old(self).fields,
                forall|j: int| 0 <= j < i ==> (#[trigger] self@[j]).0 != name@,
            decreases n - i,
        {
            if str_eq(self.fields[i].name.as_str(), name.as_str()) {
                proof {
                    assert(self@[i as int].0 == name@);
                    lemma_insert_field_at(self@, name@, value@, i as int);
                }
                self.fields[i] = HttpField { name, value };
                proof {
                    assert(self@ =~~= insert_field(old(self)@, name@, value@));
                }
                return ;
            }
            i = i + 1;
        }
        proof {
            lemma_insert_field_missing(self@, name@, value@);
        }
        self.fields.push(HttpField { name, value });
        proof {
            assert(self@ =~~= insert_field(old(self)@, name@, value@));
        }
    }

    /// Looks a name up; `None` exactly when no entry carries it.
    pub fn get<'a>(&'a self, name: &str) -> (r: Option<&'a String>)
        ensures
            match r {
                Some(v) => lookup(self@, name@) == Some(v@),
                None => lookup(self@, name@) is None,
            },
    {
        let n = self.fields.len();
        let mut i: usize = 0;
        while i < n
            invariant
                n == self.fields.len(),
                0 <= i <= n,
                forall|j: int| 0 <= j < i ==> (#[trigger] self@[j]).0 != name@,
            decreases n - i,
        {
            if str_eq(self.fields[i].name.as_str(), name) {
                proof {
                    lemma_lookup_at(self@, name@, i as int);
                }
                return Some(&self.fields[i].value);
            }
            i = i + 1;
        }
        proof {
            lemma_lookup_missing(self@, name@);
        }
        None
    }
}

/// The first line of a message: a request line, or a status line when the
/// peer sent a response (detected by the literal `HTTP` prefix).
#[derive(Debug)]
pub enum HttpStartLine {
    Response(HttpStatusLine),
    Request(HttpRequestLine),
}

impl View for HttpStartLine {
    type V = StartModel;

    open spec fn view(&self) -> StartModel {
        match self {
            HttpStartLine::Response(sl) => StartModel::Response(sl@),
            HttpStartLine::Request(rl) => StartModel::Request(rl@),
        }
    }
}

/// The rendering of a start line, per variant.
pub open spec fn fmt_start_line(m: StartModel) -> Seq<char> {
    match m {
        StartModel::Response(sl) => fmt_status_line(sl),
        StartModel::Request(rl) => fmt_request_line(rl),
    }
}

impl HttpStartLine {
    /// Renders the start line, without a line terminator.
    pub fn render(&self) -> (r: String)
        ensures
            r@ == fmt_start_line(self@),
    {
        match self {
            HttpStartLine::Response(sl) => sl.render(),
            HttpStartLine::Request(rl) => rl.render(),
        }
    }
}

/// What parsing a start line yields: a status line if the line begins with
/// the literal `HTTP`, a request line otherwise.
pub open spec fn spec_parse_start_line(line: Seq<char>) -> Result<StartModel, Error> {
    if crate::chars::starts_with(line, "HTTP"@) {
        match spec_parse_status_line(line) {
            Ok(m) => Ok(StartModel::Response(m)),
            Err(e) => Err(e),
        }
    } else {
        match spec_parse_request_line(line) {
            Ok(m) => Ok(StartModel::Request(m)),
            Err(e) => Err(e),
        }
    }
}

/// Folds field lines into the accumulated entries, left to right, each
/// parsed and inserted under its lower-cased name; the first bad line's
/// error is the whole header's.
pub open spec fn parse_fields(
    lines: Seq<Seq<char>>,
    acc: Seq<(Seq<char>, Seq<char>)>,
) -> Result<Seq<(Seq<char>, Seq<char>)>, Error>
    decreases lines.len(),
{
    if lines.len() == 0 {
        Ok(acc)
    } else {
        match spec_parse_field(lines[0]) {
            Err(e) => Err(e),
            Ok((name, value)) => parse_fields(lines.drop_first(), insert_field(acc, lower(name), value)),
        }
    }
}

/// What parsing a header block yields: the nonempty lines of the block, the
/// first as the start line, the rest as field lines.
pub open spec fn spec_parse_header(s: Seq<char>) -> Result<HeaderModel, Error> {
    let lines = header_lines(s);
    if lines.len() == 0 {
        Err(Error::Malformed)
    } else {
        match spec_parse_start_line(lines[0]) {
            Err(e) => Err(e),
            Ok(start) => match parse_fields(
                lines.drop_first(),
                Seq::<(Seq<char>, Seq<char>)>::empty(),
            ) {
                Err(e) => Err(e),
                Ok(fields) => Ok(HeaderModel { start, fields }),
            },
        }
    }
}

/// The rendering of the field entries: one `name: value` line each, in
/// storage order, each with its terminator.
pub open spec fn fmt_fields(fs: Seq<(Seq<char>, Seq<char>)>) -> Seq<char>
    decreases fs.len(),
{
    if fs.len() == 0 {
        Seq::empty()
    } else {
        fmt_field(fs[0].0, fs[0].1) + "\r\n"@ + fmt_fields(fs.drop_first())
    }
}

/// Rendering one more field appends one more line.
pub proof fn lemma_fmt_fields_append(a: Seq<(Seq<char>, Seq<char>)>, b: Seq<(Seq<char>, Seq<char>)>)
    ensures
        fmt_fields(a + b) == fmt_fields(a) + fmt_fields(b),
    decreases a.len(),
{
    if a.len() == 0 {
        assert(a + b =~= b);
        assert(fmt_fields(a + b) =~= fmt_fields(a) + fmt_fields(b));
    } else {
        assert((a + b).drop_first() =~= a.drop_first() + b);
        lemma_fmt_fields_append(a.drop_first(), b);
        assert(fmt_fields(a + b) =~= fmt_fields(a) + fmt_fields(b));
    }
}

/// The rendering of a whole header block: start line, field lines, blank
/// line, each line `\r\n`-terminated.
pub open spec fn fmt_header(h: HeaderModel) -> Seq<char> {
    fmt_start_line(h.start) + "\r\n"@ + fmt_fields(h.fields) + "\r\n"@
}

/// A parsed header block: the start line and the field mapping.
#[derive(Debug)]
pub struct HttpHeader {
    pub start_line: HttpStartLine,
    pub field_lines: HeaderFields,
}

impl View for HttpHeader {
    type V = HeaderModel;

    open spec fn view(&self) -> HeaderModel {
        HeaderModel { start: self.start_line@, fields: self.field_lines@ }
    }
}

/// Whether a request asks to keep the connection open: the `connection`
/// field decides when present (`keep-alive` and nothing else keeps the
/// connection), and otherwise the version's default does — persistent under
/// HTTP/1.1, not under HTTP/1.0. A response header is never persistent.
pub open spec fn spec_is_persistent(h: HeaderModel) -> bool {
    match h.start {
        StartModel::Request(rl) => match lookup(h.fields, "connection"@) {
            Some(v) => v == "keep-alive"@,
            None => rl.version == HttpVersion::HTTP11,
        },
        StartModel::Response(_) => false,
    }
}

impl HttpHeader {
    /// Returns true if the header requests a persistent connection.
    pub fn is_persistent(&self) -> (r: bool)
        ensures
            r == spec_is_persistent(self@),
    {
        let rl = match &self.start_line {
            HttpStartLine::Request(rl) => rl,
            HttpStartLine::Response(_) => {
                return false;
            },
        };
        match self.field_lines.get("connection") {
            Some(v) => str_eq(v.as_str(), "keep-alive"),
            None => rl.http_version == HttpVersion::HTTP11,
        }
    }

    /// Returns true if the header is a request, false otherwise.
    pub fn is_request(&self) -> (r: bool)
        ensures
            r == (self@.start is Request),
    {
        match &self.start_line {
            HttpStartLine::Request(_) => true,
            HttpStartLine::Response(_) => false,
        }
    }

    /// Returns a reference to the request line of a request header.
    pub fn request_line(&self) -> (r: &HttpRequestLine)
        requires
            self@.start is Request,
        ensures
            self@.start == StartModel::Request(r@),
    {
        match &self.start_line {
            HttpStartLine::Request(rl) => rl,
            HttpStartLine::Response(_) => {
                proof {
                    assert(false);
                }
                unreached()
            },
        }
    }

    /// Renders the header block, blank-line terminator included.
    pub fn render(&self) -> (r: String)
        ensures
            r@ == fmt_header(self@),
    {
        let mut out = self.start_line.render();
        out.append("\r\n");
        let entries = self.field_lines.entries();
        let n = entries.len();
        let mut i: usize = 0;
        proof {
            assert(self@.fields.take(0) =~= Seq::<(Seq<char>, Seq<char>)>::empty());
        }
        while i < n
            invariant
                n == entries@.len(),
                entries@.map_values(|f: HttpField| (f.name@, f.value@)) == self@.fields,
                0 <= i <= n,
                out@ == fmt_start_line(self@.start) + "\r\n"@ + fmt_fields(
                    self@.fields.take(i as int),
                ),
            decreases n - i,
        {
            let f = &entries[i];
            out.append(f.name.as_str());
            out.append(": ");
            out.append(f.value.as_str());
            out.append("\r\n");
            proof {
                let fs = self@.fields;
                let one = seq![fs[i as int]];
                lemma_fmt_fields_append(fs.take(i as int), one);
                assert(fs.take(i + 1) =~= fs.take(i as int) + one);
                assert(one.drop_first().len() == 0);
                assert(fmt_fields(one.drop_first()) =~= Seq::<char>::empty());
                assert(fmt_fields(one) =~= fmt_field(fs[i as int].0, fs[i as int].1) + "\r\n"@);
                assert((fs[i as int].0, fs[i as int].1) == (f.name@, f.value@));
                assert(out@ =~= fmt_start_line(self@.start) + "\r\n"@ + fmt_fields(
                    fs.take(i + 1),
                ));
            }
            i = i + 1;
        }
        out.append("\r\n");
        proof {
            assert(self@.fields.take(n as int) =~= self@.fields);
        }
        out
    }

    /// Parses a header block: the first nonempty line is the start line, the
    /// remaining nonempty lines are field lines collected into the mapping
    /// under their lower-cased names, later duplicates replacing earlier
    /// entries.
    pub fn from_str(s: &str) -> (r: Result<Self, Error>)
        ensures
            res_model(r) == spec_parse_header(s@),
    {
        let lines = split_header_lines(s);
        let n = lines.len();
        if n == 0 {
            return Err(Error::Malformed);
        }
        proof {
            assert(views(lines@)[0] == lines@[0]@);
        }
        let start_line = if crate::chars::str_starts_with(lines[0], "HTTP") {
            match HttpStatusLine::from_str(lines[0]) {
                Ok(sl) => HttpStartLine::Response(sl),
                Err(e) => {
                    return Err(e);
                },
            }
        } else {
            match HttpRequestLine::from_str(lines[0]) {
                Ok(rl) => HttpStartLine::Request(rl),
                Err(e) => {
                    return Err(e);
                },
            }
        };
        let mut field_lines = HeaderFields::new();
        let mut k: usize = 1;
        proof {
            assert(views(lines@).skip(1) =~= header_lines(s@).drop_first());
            assert(field_lines@ =~= Seq::<(Seq<char>, Seq<char>)>::empty());
        }
        while k < n
            invariant
                n == lines@.len(),
                views(lines@) == header_lines(s@),
                1 <= k <= n,
                spec_parse_start_line(header_lines(s@)[0]) == Ok::<StartModel, Error>(
                    start_line@,
                ),
                parse_fields(views(lines@).skip(k as int), field_lines@) == parse_fields(
                    header_lines(s@).drop_first(),
                    Seq::<(Seq<char>, Seq<char>)>::empty(),
                ),
            decreases n - k,
        {
            proof {
                assert(views(lines@)[k as int] == lines@[k as int]@);
                assert(views(lines@).skip(k as int)[0] == views(lines@)[k as int]);
            }
            let f = match HttpField::from_str(lines[k]) {
                Ok(f) => f,
                Err(e) => {
                    return Err(e);
                },
            };
            let lname = to_ascii_lowercase(f.name.as_str());
            field_lines.insert(lname, f.value);
            proof {
                assert(views(lines@).skip(k as int).drop_first() =~= views(lines@).skip(k + 1));
            }
            k = k + 1;
        }
        proof {
            assert(views(lines@).skip(n as int).len() == 0);
        }
        Ok(HttpHeader { start_line, field_lines })
    }
}

/// The views of a slice of borrowed (name, value) pairs.
pub open spec fn pair_views(ps: Seq<(&str, &str)>) -> Seq<(Seq<char>, Seq<char>)> {
    ps.map_values(|p: (&str, &str)| (p.0@, p.1@))
}

/// Folds given (name, value) pairs into field entries, in order, later
/// duplicates replacing earlier entries.
pub open spec fn fields_from_pairs(
    ps: Seq<(Seq<char>, Seq<char>)>,
    acc: Seq<(Seq<char>, Seq<char>)>,
) -> Seq<(Seq<char>, Seq<char>)>
    decreases ps.len(),
{
    if ps.len() == 0 {
        acc
    } else {
        fields_from_pairs(ps.drop_first(), insert_field(acc, ps[0].0, ps[0].1))
    }
}

/// A whole message: a header block and an optional raw body.
#[derive(Debug)]
pub struct HttpMessage {
    pub header: HttpHeader,
    pub body: Option<Vec<u8>>,
}

impl View for HttpMessage {
    type V = MessageModel;

    open spec fn view(&self) -> MessageModel {
        MessageModel {
            header: self.header@,
            body: match self.body {
                Some(ref b) => Some(b@),
                None => None,
            },
        }
    }
}

impl HttpMessage {
    /// Builds a response message from a status, the given header fields (in
    /// order, later duplicates replacing earlier ones) and an optional body.
    pub fn new_response(
        http_version: HttpVersion,
        status_code: HttpStatusCode,
        field_lines: &[(&str, &str)],
        body: Option<Vec<u8>>,
    ) -> (r: Self)
        ensures
            r@.header.start == StartModel::Response(
                StatusLineModel { version: http_version, code: status_code },
            ),
            r@.header.fields == fields_from_pairs(
                pair_views(field_lines@),
                Seq::<(Seq<char>, Seq<char>)>::empty(),
            ),
            r@.body == match body {
                Some(b) => Some(b@),
                None => None::<Seq<u8>>,
            },
    {
        let start_line = HttpStartLine::Response(
            HttpStatusLine { http_version, status_code },
        );
        let mut fields = HeaderFields::new();
        let n = field_lines.len();
        let mut i: usize = 0;
        proof {
            assert(pair_views(field_lines@).skip(0) =~= pair_views(field_lines@));
        }
        while i < n
            invariant
                n == field_lines@.len(),
                0 <= i <= n,
                fields_from_pairs(pair_views(field_lines@).skip(i as int), fields@)
                    == fields_from_pairs(
                    pair_views(field_lines@),
                    Seq::<(Seq<char>, Seq<char>)>::empty(),
                ),
            decreases n - i,
        {
            let pair = vstd::slice::slice_index_get(field_lines, i);
            let name = pair.0.to_owned();
            let value = pair.1.to_owned();
            proof {
                let pv = pair_views(field_lines@);
                assert(pv.skip(i as int)[0] == pv[i as int]);
                assert(pair_views(field_lines@).skip(i as int).drop_first() =~= pair_views(
                    field_lines@,
                ).skip(i + 1));
            }
            fields.insert(name, value);
            i = i + 1;
        }
        proof {
            assert(pair_views(field_lines@).skip(n as int).len() == 0);
        }
        let header = HttpHeader { start_line, field_lines: fields };
        HttpMessage { header, body }
    }

    /// Serializes the message: the rendered header block's UTF-8 bytes
    /// followed by the raw body bytes, if any.
    pub fn to_bytes(self) -> (r: Vec<u8>)
        ensures
            r@ == vstd::utf8::encode_utf8(fmt_header(self@.header)) + (match self@.body {
                Some(b) => b,
                None => Seq::<u8>::empty(),
            }),
    {
        let hdr = self.header.render();
        let mut out = hdr.as_str().as_bytes_vec();
        match self.body {
            Some(mut b) => {
                out.append(&mut b);
            },
            None => {
                proof {
                    assert(out@ =~= out@ + Seq::<u8>::empty());
                }
            },
        }
        out
    }
}

} // verus!
