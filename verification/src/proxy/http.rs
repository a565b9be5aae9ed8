//! HTTP/1.x requests: versions, methods, parsing from raw bytes, and rewriting a
//! request for the backend.
use vstd::prelude::*;
use vstd::slice::slice_subrange;
use vstd::slice::slice_to_vec;
use vstd::utf8::decode_utf8;
use vstd::utf8::encode_utf8;
use vstd::utf8::valid_utf8;

use crate::text::chars_of;
use crate::text::eq_ignore_ascii_case;
use crate::text::str_eq_ignore_ascii_case;
use crate::text::find_char;
use crate::text::find_char_index;
use crate::text::lemma_lines_from_len;
use crate::text::split_crlf;
use crate::text::split_lines;
use crate::text::split_whitespace;
use crate::text::split_ws;
use crate::text::str_equals;
use crate::text::trim;
use crate::text::trim_bounds;

use super::error::ErrorView;
use super::error::HttpError;

verus! {

/// The HTTP versions a request line may name.
#[derive(Debug, Clone, Copy, PartialEq, Eq, Structural)]
pub enum HttpVersion {
    Http09,
    Http10,
    Http11,
    Http2,
    Http3,
}

/// The token that names a version in a request line.
pub open spec fn version_token(v: HttpVersion) -> Seq<char> {
    match v {
        HttpVersion::Http09 => "HTTP/0.9"@,
        HttpVersion::Http10 => "HTTP/1.0"@,
        HttpVersion::Http11 => "HTTP/1.1"@,
        HttpVersion::Http2 => "HTTP/2"@,
        HttpVersion::Http3 => "HTTP/3"@,
    }
}

/// Reading a version token: exact, case-sensitive match of one of the five tokens.
pub open spec fn spec_version(t: Seq<char>) -> Result<HttpVersion, ErrorView> {
    if t == "HTTP/0.9"@ {
        Ok(HttpVersion::Http09)
    } else if t == "HTTP/1.0"@ {
        Ok(HttpVersion::Http10)
    } else if t == "HTTP/1.1"@ {
        Ok(HttpVersion::Http11)
    } else if t == "HTTP/2"@ {
        Ok(HttpVersion::Http2)
    } else if t == "HTTP/3"@ {
        Ok(HttpVersion::Http3)
    } else {
        Err(ErrorView::InvalidVersion(t))
    }
}

/// A result whose error is taken by its view.
pub open spec fn view_err<T>(r: Result<T, HttpError>) -> Result<T, ErrorView> {
    match r {
        Ok(v) => Ok(v),
        Err(e) => Err(e@),
    }
}

impl HttpVersion {
    /// The token of this version, as it is written in a request line.
    pub fn as_str(&self) -> (s: &'static str)
        ensures
            s@ == version_token(*self),
    {
        match self {
            HttpVersion::Http09 => "HTTP/0.9",
            HttpVersion::Http10 => "HTTP/1.0",
            HttpVersion::Http11 => "HTTP/1.1",
            HttpVersion::Http2 => "HTTP/2",
            HttpVersion::Http3 => "HTTP/3",
        }
    }

    /// Reads a version token.
    pub fn from_token(s: &str) -> (res: Result<HttpVersion, HttpError>)
        ensures
            view_err(res) == spec_version(s@),
    {
        if str_equals(s, "HTTP/0.9") {
            Ok(HttpVersion::Http09)
        } else if str_equals(s, "HTTP/1.0") {
            Ok(HttpVersion::Http10)
        } else if str_equals(s, "HTTP/1.1") {
            Ok(HttpVersion::Http11)
        } else if str_equals(s, "HTTP/2") {
            Ok(HttpVersion::Http2)
        } else if str_equals(s, "HTTP/3") {
            Ok(HttpVersion::Http3)
        } else {
            Err(HttpError::InvalidVersion(s.to_owned()))
        }
    }
}

impl std::str::FromStr for HttpVersion {
    type Err = HttpError;

    fn from_str(s: &str) -> (res: Result<Self, Self::Err>)
        ensures
            view_err(res) == spec_version(s@),
    {
        HttpVersion::from_token(s)
    }
}

/// The request methods.
#[derive(Debug, Clone, Copy, PartialEq, Eq, Structural)]
pub enum HttpMethod {
    GET,
    POST,
    PUT,
    PATCH,
    DELETE,
    HEAD,
    OPTIONS,
    TRACE,
    CONNECT,
}

/// The name of a method, in upper case.
pub open spec fn method_name(m: HttpMethod) -> Seq<char> {
    match m {
        HttpMethod::GET => "GET"@,
        HttpMethod::POST => "POST"@,
        HttpMethod::PUT => "PUT"@,
        HttpMethod::PATCH => "PATCH"@,
        HttpMethod::DELETE => "DELETE"@,
        HttpMethod::HEAD => "HEAD"@,
        HttpMethod::OPTIONS => "OPTIONS"@,
        HttpMethod::TRACE => "TRACE"@,
        HttpMethod::CONNECT => "CONNECT"@,
    }
}

/// Reading a method token: one of the nine names, in any ASCII case. None of the
/// names contains a `k`, so this is also a comparison of Unicode lower-case forms.
pub open spec fn spec_method(t: Seq<char>) -> Result<HttpMethod, ErrorView> {
    if eq_ignore_ascii_case(t, "get"@) {
        Ok(HttpMethod::GET)
    } else if eq_ignore_ascii_case(t, "post"@) {
        Ok(HttpMethod::POST)
    } else if eq_ignore_ascii_case(t, "put"@) {
        Ok(HttpMethod::PUT)
    } else if eq_ignore_ascii_case(t, "patch"@) {
        Ok(HttpMethod::PATCH)
    } else if eq_ignore_ascii_case(t, "delete"@) {
        Ok(HttpMethod::DELETE)
    } else if eq_ignore_ascii_case(t, "head"@) {
        Ok(HttpMethod::HEAD)
    } else if eq_ignore_ascii_case(t, "options"@) {
        Ok(HttpMethod::OPTIONS)
    } else if eq_ignore_ascii_case(t, "trace"@) {
        Ok(HttpMethod::TRACE)
    } else if eq_ignore_ascii_case(t, "connect"@) {
        Ok(HttpMethod::CONNECT)
    } else {
        Err(ErrorView::InvalidMethod(t))
    }
}

impl HttpMethod {
    /// The name of this method, in upper case.
    pub fn as_str(&self) -> (s: &'static str)
        ensures
            s@ == method_name(*self),
    {
        match self {
            HttpMethod::GET => "GET",
            HttpMethod::POST => "POST",
            HttpMethod::PATCH => "PATCH",
            HttpMethod::PUT => "PUT",
            HttpMethod::DELETE => "DELETE",
            HttpMethod::HEAD => "HEAD",
            HttpMethod::OPTIONS => "OPTIONS",
            HttpMethod::TRACE => "TRACE",
            HttpMethod::CONNECT => "CONNECT",
        }
    }

    /// Reads a method token, ignoring ASCII case.
    pub fn from_token(s: &str) -> (res: Result<HttpMethod, HttpError>)
        ensures
            view_err(res) == spec_method(s@),
    {
        if str_eq_ignore_ascii_case(s, "get") {
            Ok(HttpMethod::GET)
        } else if str_eq_ignore_ascii_case(s, "post") {
            Ok(HttpMethod::POST)
        } else if str_eq_ignore_ascii_case(s, "put") {
            Ok(HttpMethod::PUT)
        } else if str_eq_ignore_ascii_case(s, "patch") {
            Ok(HttpMethod::PATCH)
        } else if str_eq_ignore_ascii_case(s, "delete") {
            Ok(HttpMethod::DELETE)
        } else if str_eq_ignore_ascii_case(s, "head") {
            Ok(HttpMethod::HEAD)
        } else if str_eq_ignore_ascii_case(s, "options") {
            Ok(HttpMethod::OPTIONS)
        } else if str_eq_ignore_ascii_case(s, "trace") {
            Ok(HttpMethod::TRACE)
        } else if str_eq_ignore_ascii_case(s, "connect") {
            Ok(HttpMethod::CONNECT)
        } else {
            Err(HttpError::InvalidMethod(s.to_owned()))
        }
    }
}

impl std::str::FromStr for HttpMethod {
    type Err = HttpError;

    fn from_str(s: &str) -> (res: Result<Self, Self::Err>)
        ensures
            view_err(res) == spec_method(s@),
    {
        HttpMethod::from_token(s)
    }
}


/// A parsed request. `headers` holds each header name once, in the order in which
/// names first appeared; a repeated name keeps its latest value.
#[derive(Debug)]
pub struct HttpRequest {
    pub method: HttpMethod,
    pub path: String,
    pub query: Option<String>,
    pub version: HttpVersion,
    pub headers: Vec<(String, String)>,
    pub body: Vec<u8>,
}

/// A header: its name and its value.
pub type HeaderView = (Seq<char>, Seq<char>);

/// An [`HttpRequest`] as plain values.
pub struct RequestView {
    pub method: HttpMethod,
    pub path: Seq<char>,
    pub query: Option<Seq<char>>,
    pub version: HttpVersion,
    pub headers: Seq<HeaderView>,
    pub body: Seq<u8>,
}

impl View for HttpRequest {
    type V = RequestView;

    open spec fn view(&self) -> RequestView {
        RequestView {
            method: self.method,
            path: self.path@,
            query: self.query.deep_view(),
            version: self.version,
            headers: self.headers.deep_view(),
            body: self.body@,
        }
    }
}

/// No header name occurs twice.
pub open spec fn unique_names(hs: Seq<HeaderView>) -> bool {
    forall|i: int, j: int| 0 <= i < hs.len() && 0 <= j < hs.len() && i != j ==> hs[i].0 != hs[j].0
}

/// Setting a header: the first header of that name gets the new value, or the header
/// is added at the end when no header has that name.
pub open spec fn insert_header(hs: Seq<HeaderView>, k: Seq<char>, v: Seq<char>) -> Seq<HeaderView>
    decreases hs.len(),
{
    if hs.len() == 0 {
        seq![(k, v)]
    } else if hs[0].0 == k {
        seq![(k, v)] + hs.drop_first()
    } else {
        seq![hs[0]] + insert_header(hs.drop_first(), k, v)
    }
}

/// The request target split at its first `?` into path and query.
pub open spec fn split_target(t: Seq<char>) -> (Seq<char>, Option<Seq<char>>) {
    match find_char(t, '?') {
        Some(i) => (t.take(i), Some(t.skip(i + 1))),
        None => (t, None),
    }
}

/// The parts of a request line.
pub type RequestLineView = (HttpMethod, Seq<char>, Option<Seq<char>>, HttpVersion);

/// Reading a request line: at least three whitespace-separated words, of which the
/// first is the method, the second the target and the third the version; further
/// words are ignored. The method is checked before the version.
pub open spec fn spec_request_line(line: Seq<char>) -> Result<RequestLineView, ErrorView> {
    let parts = split_ws(line);
    if parts.len() < 3 {
        Err(ErrorView::InvalidRequestLine(line))
    } else {
        match spec_method(parts[0]) {
            Err(e) => Err(e),
            Ok(m) => match spec_version(parts[2]) {
                Err(e) => Err(e),
                Ok(v) => Ok((m, split_target(parts[1]).0, split_target(parts[1]).1, v)),
            },
        }
    }
}

/// Reading a header line: name and value around the first `:`, both trimmed.
pub open spec fn spec_header_line(line: Seq<char>) -> Result<HeaderView, ErrorView> {
    match find_char(line, ':') {
        Some(i) => Ok((trim(line.take(i)), trim(line.skip(i + 1)))),
        None => Err(ErrorView::InvalidHeader(line)),
    }
}

/// Reading the lines after the request line: header lines up to the first empty line,
/// each set into `acc`; the lines after the empty line are the body's.
pub open spec fn spec_headers(lines: Seq<Seq<char>>, acc: Seq<HeaderView>) -> Result<
    (Seq<HeaderView>, Seq<Seq<char>>),
    ErrorView,
>
    decreases lines.len(),
{
    if lines.len() == 0 {
        Ok((acc, seq![]))
    } else if lines[0].len() == 0 {
        Ok((acc, lines.drop_first()))
    } else {
        match spec_header_line(lines[0]) {
            Err(e) => Err(e),
            Ok(h) => spec_headers(lines.drop_first(), insert_header(acc, h.0, h.1)),
        }
    }
}

/// An empty line follows a line end at byte `i`: the bytes `"\r\n\r\n"` start there.
pub open spec fn blank_at(b: Seq<u8>, i: int) -> bool {
    &&& 0 <= i
    &&& i + 4 <= b.len()
    &&& b[i] == 13
    &&& b[i + 1] == 10
    &&& b[i + 2] == 13
    &&& b[i + 3] == 10
}

/// The first byte at which `"\r\n\r\n"` starts.
pub open spec fn find_blank(b: Seq<u8>) -> Option<int>
    decreases b.len(),
{
    if b.len() < 4 {
        None
    } else if blank_at(b, 0) {
        Some(0)
    } else {
        match find_blank(b.drop_first()) {
            Some(i) => Some(i + 1),
            None => None,
        }
    }
}

/// A request's bytes split into head and body at the first empty line: the head is
/// what comes before the `"\r\n\r\n"`, the body all that follows it. Without an
/// empty line, all bytes are the head and the body is empty.
pub open spec fn split_head(b: Seq<u8>) -> (Seq<u8>, Seq<u8>) {
    match find_blank(b) {
        Some(p) => (b.take(p), b.skip(p + 4)),
        None => (b, seq![]),
    }
}

/// Reading a request from the text of its head and the bytes of its body: the head's
/// lines are separated by `"\r\n"`, the first being the request line and the others
/// header lines, read up to the first empty line.
pub open spec fn spec_parse_head(head: Seq<char>, body: Seq<u8>) -> Result<RequestView, ErrorView> {
    let lines = split_crlf(head);
    match spec_request_line(lines[0]) {
        Err(e) => Err(e),
        Ok(rl) => match spec_headers(lines.drop_first(), seq![]) {
            Err(e) => Err(e),
            Ok(hb) => Ok(
                RequestView {
                    method: rl.0,
                    path: rl.1,
                    query: rl.2,
                    version: rl.3,
                    headers: hb.0,
                    body,
                },
            ),
        },
    }
}

/// Reading a request from the bytes received: the head decoded as
/// `String::from_utf8_lossy` decodes it, the body kept as it is.
pub open spec fn spec_parse(b: Seq<u8>) -> Result<RequestView, ErrorView> {
    spec_parse_head(utf8_lossy(split_head(b).0), split_head(b).1)
}

/// Reading a request whose head is valid UTF-8.
pub open spec fn spec_parse_valid(b: Seq<u8>) -> Result<RequestView, ErrorView> {
    spec_parse_head(decode_utf8(split_head(b).0), split_head(b).1)
}

/// The text of the bytes as `String::from_utf8_lossy` decodes them.
pub uninterp spec fn utf8_lossy(bytes: Seq<u8>) -> Seq<char>;

/// Decodes bytes as UTF-8, replacing invalid sequences.
///
/// Calls `String::from_utf8_lossy`. Claimed: the result is a function of the bytes
/// alone, and on valid UTF-8 it is the decoded text (the documentation: a valid
/// input is returned as it is). What replacement characters stand for invalid
/// sequences is not stated.
#[verifier::external_body]
fn decode_lossy(bytes: &[u8]) -> (text: String)
    ensures
        text@ == utf8_lossy(bytes@),
        valid_utf8(bytes@) ==> text@ == decode_utf8(bytes@),
{
    String::from_utf8_lossy(bytes).into_owned()
}

/// A request-line result as plain values.
pub open spec fn request_line_view(
    r: Result<(HttpMethod, String, Option<String>, HttpVersion), HttpError>,
) -> Result<RequestLineView, ErrorView> {
    match r {
        Ok(t) => Ok((t.0, t.1@, t.2.deep_view(), t.3)),
        Err(e) => Err(e@),
    }
}

/// A header-line result as plain values.
pub open spec fn header_line_view(r: Result<(String, String), HttpError>) -> Result<
    HeaderView,
    ErrorView,
> {
    match r {
        Ok(t) => Ok((t.0@, t.1@)),
        Err(e) => Err(e@),
    }
}

/// A request result as plain values.
pub open spec fn request_view(r: Result<HttpRequest, HttpError>) -> Result<RequestView, ErrorView> {
    match r {
        Ok(req) => Ok(req@),
        Err(e) => Err(e@),
    }
}

/// Setting a header where the name first occurs at `i`, or nowhere.
proof fn lemma_insert_header_at(hs: Seq<HeaderView>, k: Seq<char>, v: Seq<char>, i: int)
    requires
        0 <= i <= hs.len(),
        forall|j: int| 0 <= j < i ==> hs[j].0 != k,
        i < hs.len() ==> hs[i].0 == k,
    ensures
        i < hs.len() ==> insert_header(hs, k, v) == hs.update(i, (k, v)),
        i == hs.len() ==> insert_header(hs, k, v) == hs.push((k, v)),
    decreases i,
{
    if i > 0 {
        lemma_insert_header_at(hs.drop_first(), k, v, i - 1);
        if i < hs.len() {
            assert(insert_header(hs, k, v) =~= hs.update(i, (k, v)));
        } else {
            assert(insert_header(hs, k, v) =~= hs.push((k, v)));
        }
    } else if hs.len() > 0 {
        assert(insert_header(hs, k, v) =~= hs.update(i, (k, v)));
    } else {
        assert(insert_header(hs, k, v) =~= hs.push((k, v)));
    }
}

/// Sets header `k` to `v` in `headers`.
fn set_header(headers: &mut Vec<(String, String)>, k: String, v: String)
    ensures
        final(headers).deep_view() == insert_header(old(headers).deep_view(), k@, v@),
{
    let n = headers.len();
    let ghost hs = headers.deep_view();
    let mut i: usize = 0;
    while i < n
        invariant
            n == headers@.len(),
            hs == headers.deep_view(),
            hs == old(headers).deep_view(),
            i <= n,
            forall|j: int| 0 <= j < i ==> hs[j].0 != k@,
        decreases n - i,
    {
        if headers[i].0 == k {
            proof {
                lemma_insert_header_at(hs, k@, v@, i as int);
            }
            headers.set(i, (k, v));
            assert(headers.deep_view() =~= hs.update(i as int, (k@, v@)));
            assert(headers.deep_view() == insert_header(hs, k@, v@));
            return;
        }
        i = i + 1;
    }
    proof {
        lemma_insert_header_at(hs, k@, v@, n as int);
    }
    headers.push((k, v));
    assert(headers.deep_view() =~= hs.push((k@, v@)));
}

/// The first empty line is where a search stops at the first hit.
proof fn lemma_find_blank_at(b: Seq<u8>, i: int)
    requires
        blank_at(b, i),
        forall|j: int| 0 <= j < i ==> !blank_at(b, j),
    ensures
        find_blank(b) == Some(i),
    decreases i,
{
    if i > 0 {
        assert forall|j: int| 0 <= j < i - 1 implies !blank_at(b.drop_first(), j) by {
            assert(!blank_at(b, j + 1));
        }
        lemma_find_blank_at(b.drop_first(), i - 1);
    }
}

/// Without an empty line, none is found.
proof fn lemma_find_blank_none(b: Seq<u8>)
    requires
        forall|j: int| 0 <= j ==> !blank_at(b, j),
    ensures
        find_blank(b) is None,
    decreases b.len(),
{
    if b.len() >= 4 {
        assert(!blank_at(b, 0));
        assert forall|j: int| 0 <= j implies !blank_at(b.drop_first(), j) by {
            assert(!blank_at(b, j + 1));
        }
        lemma_find_blank_none(b.drop_first());
    }
}

/// The byte at which the first `"\r\n\r\n"` starts.
fn find_blank_line(b: &[u8]) -> (res: Option<usize>)
    ensures
        res matches Some(i) ==> find_blank(b@) == Some(i as int) && i + 4 <= b@.len(),
        res is None ==> find_blank(b@) is None,
{
    let n = b.len();
    let mut i: usize = 0;
    while n >= 4 && i <= n - 4
        invariant
            n == b@.len(),
            forall|j: int| 0 <= j < i ==> !blank_at(b@, j),
        decreases n - i,
    {
        if b[i] == 13 && b[i + 1] == 10 && b[i + 2] == 13 && b[i + 3] == 10 {
            proof {
                lemma_find_blank_at(b@, i as int);
            }
            return Some(i);
        }
        i = i + 1;
    }
    proof {
        lemma_find_blank_none(b@);
    }
    None
}

impl HttpRequest {
    /// Parses a request from the bytes read from a client. The head, up to the first
    /// empty line, is decoded as UTF-8 with invalid sequences replaced and read by
    /// [`HttpRequest::parse_head`]; the bytes after the empty line are the body,
    /// unchanged.
    pub fn parse(buffer: &[u8]) -> (res: Result<Self, HttpError>)
        ensures
            request_view(res) == spec_parse(buffer@),
            valid_utf8(split_head(buffer@).0) ==> request_view(res) == spec_parse_valid(buffer@),
    {
        match find_blank_line(buffer) {
            Some(p) => {
                let n = buffer.len();
                assert(p + 4 <= n);
                let head = decode_lossy(slice_subrange(buffer, 0, p));
                let body = slice_to_vec(slice_subrange(buffer, p + 4, n));
                assert(buffer@.subrange(0, p as int) =~= buffer@.take(p as int));
                assert(buffer@.subrange(p + 4, buffer@.len() as int) =~= buffer@.skip(p + 4));
                Self::parse_head(head.as_str(), body)
            },
            None => {
                let head = decode_lossy(buffer);
                Self::parse_head(head.as_str(), Vec::new())
            },
        }
    }

    /// Reads a request from the text of its head and the bytes of its body.
    pub fn parse_head(head: &str, body: Vec<u8>) -> (res: Result<Self, HttpError>)
        ensures
            request_view(res) == spec_parse_head(head@, body@),
    {
        let lines = split_lines(head);
        let ghost lv = lines.deep_view();
        proof {
            lemma_lines_from_len(head@, seq![]);
        }
        let rl = Self::parse_request_line(lines[0].as_str());
        let (method, path, query, version) = match rl {
            Ok(t) => t,
            Err(e) => {
                return Err(e);
            },
        };
        let n = lines.len();
        let mut headers: Vec<(String, String)> = Vec::new();
        let mut i: usize = 1;
        assert(lv.skip(1) =~= lv.drop_first());
        assert(headers.deep_view() =~= Seq::<HeaderView>::empty());
        while i < n && !lines[i].as_str().is_empty()
            invariant
                1 <= i <= n,
                n == lv.len(),
                lv == lines.deep_view(),
                lv == split_crlf(head@),
                spec_request_line(lv[0]) == Ok::<_, ErrorView>((method, path@, query.deep_view(), version)),
                spec_headers(lv.drop_first(), seq![]) == spec_headers(
                    lv.skip(i as int),
                    headers.deep_view(),
                ),
            decreases n - i,
        {
            let ghost rest = lv.skip(i as int);
            assert(rest[0] == lv[i as int]);
            assert(rest.drop_first() =~= lv.skip(i + 1));
            match Self::parse_header_line(lines[i].as_str()) {
                Ok((k, v)) => {
                    set_header(&mut headers, k, v);
                },
                Err(e) => {
                    return Err(e);
                },
            }
            i = i + 1;
        }
        proof {
            let rest = lv.skip(i as int);
            if i < n {
                assert(rest[0] == lv[i as int]);
            } else {
                assert(rest =~= Seq::<Seq<char>>::empty());
            }
        }
        Ok(HttpRequest { method, path, query, version, headers, body })
    }

    /// Parses a request line into method, path, query and version.
    pub fn parse_request_line(line: &str) -> (res: Result<
        (HttpMethod, String, Option<String>, HttpVersion),
        HttpError,
    >)
        ensures
            request_line_view(res) == spec_request_line(line@),
    {
        let parts = split_whitespace(line);
        if parts.len() < 3 {
            return Err(HttpError::InvalidRequestLine(line.to_owned()));
        }
        let method = match HttpMethod::from_token(parts[0].as_str()) {
            Ok(m) => m,
            Err(e) => {
                return Err(e);
            },
        };
        let version = match HttpVersion::from_token(parts[2].as_str()) {
            Ok(v) => v,
            Err(e) => {
                return Err(e);
            },
        };
        let full = parts[1].as_str();
        let cs = chars_of(full);
        let n = cs.len();
        match find_char_index(&cs, '?') {
            Some(q) => {
                assert(q < cs@.len());
                let path = full.substring_char(0, q).to_owned();
                let query = full.substring_char(q + 1, n).to_owned();
                assert(full@.take(q as int) =~= full@.subrange(0, q as int));
                assert(full@.skip(q + 1) =~= full@.subrange(q + 1, cs@.len() as int));
                Ok((method, path, Some(query), version))
            },
            None => Ok((method, full.to_owned(), None, version)),
        }
    }

    /// Parses a header line into its trimmed name and value.
    pub fn parse_header_line(line: &str) -> (res: Result<(String, String), HttpError>)
        ensures
            header_line_view(res) == spec_header_line(line@),
    {
        let cs = chars_of(line);
        let n = cs.len();
        match find_char_index(&cs, ':') {
            None => Err(HttpError::InvalidHeader(line.to_owned())),
            Some(i) => {
                let (a, b) = trim_bounds(&cs, 0, i);
                let (c, d) = trim_bounds(&cs, i + 1, n);
                assert(line@.take(i as int) =~= line@.subrange(0, i as int));
                assert(line@.skip(i + 1) =~= line@.subrange(i + 1, n as int));
                let key = line.substring_char(a, b).to_owned();
                let value = line.substring_char(c, d).to_owned();
                Ok((key, value))
            },
        }
    }
}


/// The request target: the path, then `?` and the query when there is one.
pub open spec fn target_text(path: Seq<char>, query: Option<Seq<char>>) -> Seq<char> {
    match query {
        Some(q) => path + seq!['?'] + q,
        None => path,
    }
}

/// The hop-by-hop headers, which apply to one connection and are not forwarded.
/// Header names are compared ignoring ASCII case.
pub open spec fn is_hop_by_hop(name: Seq<char>) -> bool {
    ||| eq_ignore_ascii_case(name, "Connection"@)
    ||| eq_ignore_ascii_case(name, "Keep-Alive"@)
    ||| eq_ignore_ascii_case(name, "Proxy-Authenticate"@)
    ||| eq_ignore_ascii_case(name, "Proxy-Authorization"@)
    ||| eq_ignore_ascii_case(name, "TE"@)
    ||| eq_ignore_ascii_case(name, "Trailer"@)
    ||| eq_ignore_ascii_case(name, "Transfer-Encoding"@)
    ||| eq_ignore_ascii_case(name, "Upgrade"@)
}

/// The headers that are forwarded: all but the hop-by-hop ones, in order.
pub open spec fn forwarded_headers(hs: Seq<HeaderView>) -> Seq<HeaderView>
    decreases hs.len(),
{
    if hs.len() == 0 {
        seq![]
    } else if is_hop_by_hop(hs.last().0) {
        forwarded_headers(hs.drop_last())
    } else {
        forwarded_headers(hs.drop_last()).push(hs.last())
    }
}

/// One header line: `name: value` and a line end.
pub open spec fn header_line(h: HeaderView) -> Seq<char> {
    h.0 + seq![':', ' '] + h.1 + seq!['\r', '\n']
}

/// The header lines of `hs`, in order.
pub open spec fn header_block(hs: Seq<HeaderView>) -> Seq<char>
    decreases hs.len(),
{
    if hs.len() == 0 {
        seq![]
    } else {
        header_block(hs.drop_last()) + header_line(hs.last())
    }
}

/// The request line: method, target and version separated by single spaces.
pub open spec fn request_line_text(r: RequestView) -> Seq<char> {
    method_name(r.method) + seq![' '] + target_text(r.path, r.query) + seq![' '] + version_token(
        r.version,
    )
}

/// The head of the request sent to the backend: the request line, the forwarded
/// header lines, and the empty line that ends the head.
pub open spec fn backend_head(r: RequestView) -> Seq<char> {
    request_line_text(r) + seq!['\r', '\n'] + header_block(forwarded_headers(r.headers)) + seq![
        '\r',
        '\n',
    ]
}

/// Whether a header name is hop-by-hop.
fn is_hop_by_hop_name(name: &str) -> (b: bool)
    ensures
        b == is_hop_by_hop(name@),
{
    str_eq_ignore_ascii_case(name, "Connection") || str_eq_ignore_ascii_case(name, "Keep-Alive")
        || str_eq_ignore_ascii_case(name, "Proxy-Authenticate") || str_eq_ignore_ascii_case(
        name,
        "Proxy-Authorization",
    ) || str_eq_ignore_ascii_case(name, "TE") || str_eq_ignore_ascii_case(name, "Trailer")
        || str_eq_ignore_ascii_case(name, "Transfer-Encoding") || str_eq_ignore_ascii_case(
        name,
        "Upgrade",
    )
}

impl HttpRequest {
    /// The bytes of the request to send to the backend: the head, encoded as UTF-8,
    /// followed by the body unchanged.
    pub fn to_backend_request(self) -> (bytes: Vec<u8>)
        ensures
            bytes@ == encode_utf8(backend_head(self@)) + self@.body,
    {
        let ghost r = self@;
        proof {
            reveal_strlit(" ");
            reveal_strlit("?");
            reveal_strlit("\r\n");
        }
        let mut head = String::new();
        head.append(self.method.as_str());
        head.append(" ");
        head.append(self.path.as_str());
        match &self.query {
            Some(q) => {
                head.append("?");
                head.append(q.as_str());
            },
            None => {},
        }
        head.append(" ");
        head.append(self.version.as_str());
        head.append("\r\n");
        let ghost line_part = head@;
        assert(line_part =~= request_line_text(r) + seq!['\r', '\n']);
        let n = self.headers.len();
        let ghost hs = self.headers.deep_view();
        let mut j: usize = 0;
        assert(hs.take(0) =~= Seq::<HeaderView>::empty());
        assert(head@ =~= line_part + header_block(forwarded_headers(hs.take(0))));
        while j < n
            invariant
                n == hs.len(),
                hs == self.headers.deep_view(),
                j <= n,
                head@ == line_part + header_block(forwarded_headers(hs.take(j as int))),
            decreases n - j,
        {
            proof {
                reveal_strlit(": ");
                reveal_strlit("\r\n");
            }
            let ghost prev = head@;
            let ghost hj = hs[j as int];
            assert(hs.take(j + 1).drop_last() =~= hs.take(j as int));
            assert(hs.take(j + 1).last() == hj);
            let name = self.headers[j].0.as_str();
            let value = self.headers[j].1.as_str();
            if !is_hop_by_hop_name(name) {
                head.append(name);
                head.append(": ");
                head.append(value);
                head.append("\r\n");
                let ghost f = forwarded_headers(hs.take(j as int));
                assert(hj == (name@, value@));
                assert(forwarded_headers(hs.take(j + 1)) == f.push(hj));
                assert(f.push(hj).drop_last() =~= f);
                assert(header_block(forwarded_headers(hs.take(j + 1))) == header_block(f)
                    + header_line(hj));
                assert(head@ =~= prev + header_line(hj));
            }
            j = j + 1;
        }
        assert(hs.take(n as int) =~= hs);
        head.append("\r\n");
        assert(head@ =~= backend_head(r));
        let mut bytes = slice_to_vec(head.as_str().as_bytes());
        let mut body = self.body;
        bytes.append(&mut body);
        bytes
    }
}

} // verus!
