use tunnel::proxy::error::HttpError;
use tunnel::proxy::http::HttpMethod;
use tunnel::proxy::http::HttpRequest;
use tunnel::proxy::http::HttpVersion;

fn header<'a>(req: &'a HttpRequest, name: &str) -> Option<&'a str> {
    req.headers
        .iter()
        .find(|(k, _)| k == name)
        .map(|(_, v)| v.as_str())
}

#[test]
fn request_line_with_query() {
    let (m, p, q, v) = HttpRequest::parse_request_line("GET /api/users?page=2 HTTP/1.1").unwrap();
    assert_eq!(m, HttpMethod::GET);
    assert_eq!(p, "/api/users");
    assert_eq!(q, Some("page=2".to_string()));
    assert_eq!(v, HttpVersion::Http11);
}

#[test]
fn request_line_splits_at_first_question_mark() {
    let (_, p, q, _) = HttpRequest::parse_request_line("POST /a?b?c HTTP/2").unwrap();
    assert_eq!(p, "/a");
    assert_eq!(q, Some("b?c".to_string()));
}

#[test]
fn request_line_without_query_and_extra_words() {
    let (m, p, q, v) =
        HttpRequest::parse_request_line("  delete\t/x   HTTP/1.0 trailing words").unwrap();
    assert_eq!(m, HttpMethod::DELETE);
    assert_eq!(p, "/x");
    assert_eq!(q, None);
    assert_eq!(v, HttpVersion::Http10);
}

#[test]
fn request_line_too_short() {
    match HttpRequest::parse_request_line("GET /") {
        Err(HttpError::InvalidRequestLine(l)) => assert_eq!(l, "GET /"),
        other => panic!("unexpected {:?}", other),
    }
}

#[test]
fn request_line_bad_method_checked_before_version() {
    match HttpRequest::parse_request_line("FETCH / HTTP/9") {
        Err(HttpError::InvalidMethod(m)) => assert_eq!(m, "FETCH"),
        other => panic!("unexpected {:?}", other),
    }
}

#[test]
fn request_line_bad_version() {
    match HttpRequest::parse_request_line("GET / http/1.1") {
        Err(HttpError::InvalidVersion(v)) => assert_eq!(v, "http/1.1"),
        other => panic!("unexpected {:?}", other),
    }
}

#[test]
fn methods_ignore_case() {
    assert_eq!("gEt".parse::<HttpMethod>().unwrap(), HttpMethod::GET);
    assert_eq!("Options".parse::<HttpMethod>().unwrap(), HttpMethod::OPTIONS);
    assert_eq!("CONNECT".parse::<HttpMethod>().unwrap(), HttpMethod::CONNECT);
    assert!("GETS".parse::<HttpMethod>().is_err());
    assert!("".parse::<HttpMethod>().is_err());
}

#[test]
fn versions_are_exact() {
    assert_eq!("HTTP/0.9".parse::<HttpVersion>().unwrap(), HttpVersion::Http09);
    assert_eq!("HTTP/3".parse::<HttpVersion>().unwrap(), HttpVersion::Http3);
    assert!("HTTP/1.2".parse::<HttpVersion>().is_err());
    assert_eq!(HttpVersion::Http2.as_str(), "HTTP/2");
    assert_eq!(HttpMethod::PATCH.as_str(), "PATCH");
}

#[test]
fn header_line_trims_and_splits_at_first_colon() {
    let (k, v) = HttpRequest::parse_header_line("  Host :  example.com:8080  ").unwrap();
    assert_eq!(k, "Host");
    assert_eq!(v, "example.com:8080");
    let (k, v) = HttpRequest::parse_header_line("X-Empty:").unwrap();
    assert_eq!(k, "X-Empty");
    assert_eq!(v, "");
}

#[test]
fn header_line_without_colon() {
    match HttpRequest::parse_header_line("NoColonHere") {
        Err(HttpError::InvalidHeader(h)) => assert_eq!(h, "NoColonHere"),
        other => panic!("unexpected {:?}", other),
    }
}

#[test]
fn parse_full_request() {
    let raw = b"POST /submit?x=1 HTTP/1.1\r\nHost: localhost\r\nContent-Length: 11\r\n\r\nhello\r\nworld";
    let req = HttpRequest::parse(raw).unwrap();
    assert_eq!(req.method, HttpMethod::POST);
    assert_eq!(req.path, "/submit");
    assert_eq!(req.query, Some("x=1".to_string()));
    assert_eq!(req.version, HttpVersion::Http11);
    assert_eq!(req.headers.len(), 2);
    assert_eq!(header(&req, "Host"), Some("localhost"));
    assert_eq!(header(&req, "Content-Length"), Some("11"));
    assert_eq!(req.body, b"hello\r\nworld".to_vec());
}

#[test]
fn parse_repeated_header_keeps_latest_value() {
    let raw = b"GET / HTTP/1.1\r\nA: 1\r\nB: 2\r\nA: 3\r\n\r\n";
    let req = HttpRequest::parse(raw).unwrap();
    assert_eq!(req.headers, vec![("A".to_string(), "3".to_string()), ("B".to_string(), "2".to_string())]);
    assert!(req.body.is_empty());
}

#[test]
fn parse_without_blank_line_has_empty_body() {
    let req = HttpRequest::parse(b"GET /p HTTP/1.0\r\nX: y").unwrap();
    assert_eq!(req.headers, vec![("X".to_string(), "y".to_string())]);
    assert!(req.body.is_empty());
}

#[test]
fn parse_empty_input_is_invalid_request_line() {
    match HttpRequest::parse(b"") {
        Err(HttpError::InvalidRequestLine(l)) => assert_eq!(l, ""),
        other => panic!("unexpected {:?}", other),
    }
}

#[test]
fn parse_bad_header_line() {
    match HttpRequest::parse(b"GET / HTTP/1.1\r\nbroken\r\n\r\n") {
        Err(HttpError::InvalidHeader(h)) => assert_eq!(h, "broken"),
        other => panic!("unexpected {:?}", other),
    }
}

#[test]
fn parse_replaces_invalid_utf8() {
    let req = HttpRequest::parse(b"GET /a\xffb HTTP/1.1\r\n\r\n").unwrap();
    assert_eq!(req.path, "/a\u{FFFD}b");
}

#[test]
fn backend_request_bytes() {
    let req = HttpRequest {
        method: HttpMethod::PUT,
        path: "/items/7".to_string(),
        query: Some("force=1".to_string()),
        version: HttpVersion::Http11,
        headers: vec![
            ("Host".to_string(), "localhost:9000".to_string()),
            ("Connection".to_string(), "keep-alive".to_string()),
            ("X-Id".to_string(), "42".to_string()),
            ("Transfer-Encoding".to_string(), "chunked".to_string()),
        ],
        body: b"payload".to_vec(),
    };
    let bytes = req.to_backend_request();
    assert_eq!(
        bytes,
        b"PUT /items/7?force=1 HTTP/1.1\r\nHost: localhost:9000\r\nX-Id: 42\r\n\r\npayload".to_vec()
    );
}

#[test]
fn hop_by_hop_names_ignore_case() {
    let req = HttpRequest {
        method: HttpMethod::GET,
        path: "/".to_string(),
        query: None,
        version: HttpVersion::Http10,
        headers: vec![
            ("connection".to_string(), "close".to_string()),
            ("KEEP-ALIVE".to_string(), "5".to_string()),
            ("Accept".to_string(), "*/*".to_string()),
        ],
        body: Vec::new(),
    };
    assert_eq!(req.to_backend_request(), b"GET / HTTP/1.0\r\nAccept: */*\r\n\r\n".to_vec());
}

#[test]
fn body_bytes_are_kept() {
    let req = HttpRequest::parse(b"POST / HTTP/1.1\r\n\r\n\xff").unwrap();
    assert_eq!(req.body, vec![0xFFu8]);
    let req = HttpRequest::parse(b"POST / HTTP/1.1\r\nA: b\r\n\r\n\x00\xc3\r\n\r\nz").unwrap();
    assert_eq!(req.headers, vec![("A".to_string(), "b".to_string())]);
    assert_eq!(req.body, b"\x00\xc3\r\n\r\nz".to_vec());
}

#[test]
fn binary_body_round_trip() {
    let body: Vec<u8> = (0u8..=255).collect();
    let req = HttpRequest {
        method: HttpMethod::POST,
        path: "/upload".to_string(),
        query: None,
        version: HttpVersion::Http11,
        headers: vec![("Content-Type".to_string(), "application/octet-stream".to_string())],
        body: body.clone(),
    };
    let bytes = req.to_backend_request();
    let back = HttpRequest::parse(&bytes).unwrap();
    assert_eq!(back.body, body);
    assert_eq!(back.path, "/upload");
    let again = back.to_backend_request();
    assert_eq!(again, bytes);
}

#[test]
fn backend_request_parses_back() {
    let req = HttpRequest {
        method: HttpMethod::OPTIONS,
        path: "/some/path".to_string(),
        query: Some("foo=bar".to_string()),
        version: HttpVersion::Http2,
        headers: vec![
            ("Accept".to_string(), "*/*".to_string()),
            ("Upgrade".to_string(), "websocket".to_string()),
            ("User-Agent".to_string(), "curl/8.0".to_string()),
        ],
        body: "line one\r\nline two é".as_bytes().to_vec(),
    };
    let bytes = req.to_backend_request();
    let back = HttpRequest::parse(&bytes).unwrap();
    assert_eq!(back.method, HttpMethod::OPTIONS);
    assert_eq!(back.path, "/some/path");
    assert_eq!(back.query, Some("foo=bar".to_string()));
    assert_eq!(back.version, HttpVersion::Http2);
    assert_eq!(
        back.headers,
        vec![
            ("Accept".to_string(), "*/*".to_string()),
            ("User-Agent".to_string(), "curl/8.0".to_string()),
        ]
    );
    assert_eq!(back.body, "line one\r\nline two é".as_bytes().to_vec());
}

#[test]
fn error_messages() {
    assert_eq!(HttpError::InvalidVersion("X".to_string()).message(), "Invalid HTTP version: X");
    assert_eq!(HttpError::InvalidMethod("Y".to_string()).message(), "Invalid HTTP method: Y");
    assert_eq!(HttpError::InvalidRequestLine("Z".to_string()).message(), "Invalid request line: Z");
    assert_eq!(HttpError::InvalidHeader("W".to_string()).message(), "Invalid request header: W");
    assert_eq!(HttpError::MissingRequestLine.message(), "Missing request line");
}

#[test]
fn io_error_message_and_conversion() {
    let io = std::io::Error::new(std::io::ErrorKind::Other, "disk on fire");
    let e: HttpError = io.into();
    assert!(matches!(e, HttpError::IoError(_)));
    assert_eq!(e.message(), "IO error: disk on fire");
}
