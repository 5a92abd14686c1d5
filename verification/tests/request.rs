use ferrox::http::request::{ParseError, Request};

fn header_pairs(r: &Request) -> Vec<(String, String)> {
    r.headers.clone()
}

#[test]
fn parses_request_line_and_headers() {
    let buf = b"GET /index.html HTTP/1.1\r\nHost: Example.com\r\nUser-Agent:  curl/8.0  \r\n\r\nbody";
    let r = Request::parse(buf).expect("valid request");
    assert_eq!(r.method, "GET");
    assert_eq!(r.path, "/index.html");
    assert_eq!(r.version, "HTTP/1.1");
    assert_eq!(
        header_pairs(&r),
        vec![
            ("host".to_string(), "Example.com".to_string()),
            ("user-agent".to_string(), "curl/8.0".to_string())
        ]
    );
}

#[test]
fn later_header_overrides_earlier_one_in_place() {
    let buf = b"GET / HTTP/1.1\r\nAccept: a\r\nX-One: 1\r\naccept: b\r\n\r\n";
    let r = Request::parse(buf).expect("valid request");
    assert_eq!(
        header_pairs(&r),
        vec![
            ("accept".to_string(), "b".to_string()),
            ("x-one".to_string(), "1".to_string())
        ]
    );
    assert_eq!(r.header("accept").map(|s| s.as_str()), Some("b"));
    assert_eq!(r.header("Accept"), None);
}

#[test]
fn empty_line_ends_the_headers() {
    let buf = b"GET / HTTP/1.1\r\nA: 1\n\nB no colon\r\n\r\n";
    let r = Request::parse(buf).expect("valid request");
    assert_eq!(header_pairs(&r), vec![("a".to_string(), "1".to_string())]);
}

#[test]
fn request_without_headers() {
    let r = Request::parse(b"HEAD /a%20b HTTP/1.0\r\n\r\n").expect("valid request");
    assert_eq!(r.method, "HEAD");
    assert_eq!(r.path, "/a%20b");
    assert_eq!(r.version, "HTTP/1.0");
    assert!(r.headers.is_empty());
}

#[test]
fn empty_parts_are_accepted() {
    let r = Request::parse(b"GET  HTTP/1.1\r\n\r\n").expect("valid request");
    assert_eq!(r.method, "GET");
    assert_eq!(r.path, "");
    assert_eq!(r.version, "HTTP/1.1");
}

#[test]
fn missing_terminator_is_refused() {
    assert!(matches!(
        Request::parse(b"GET / HTTP/1.1\r\nHost: x\r\n"),
        Err(ParseError::NoHeaderTerminator)
    ));
    assert!(matches!(Request::parse(b""), Err(ParseError::NoHeaderTerminator)));
}

#[test]
fn request_line_errors() {
    assert!(matches!(Request::parse(b"GET\r\n\r\n"), Err(ParseError::NoPath)));
    assert!(matches!(Request::parse(b"GET /\r\n\r\n"), Err(ParseError::NoVersion)));
    assert!(matches!(
        Request::parse(b"GET / HTTP/1.1 extra\r\n\r\n"),
        Err(ParseError::TooManyParts)
    ));
}

#[test]
fn header_errors() {
    assert!(matches!(
        Request::parse(b"GET / HTTP/1.1\r\nNoColon\r\n\r\n"),
        Err(ParseError::MalformedHeader)
    ));
    assert!(matches!(
        Request::parse(b"GET / HTTP/1.1\r\n\xff: v\r\n\r\n"),
        Err(ParseError::InvalidHeaderKey)
    ));
    assert!(matches!(
        Request::parse(b"GET / HTTP/1.1\r\nk: \xff\r\n\r\n"),
        Err(ParseError::InvalidHeaderValue)
    ));
    assert!(matches!(
        Request::parse(b"GET /\xff HTTP/1.1\r\n\r\n"),
        Err(ParseError::InvalidUtf8)
    ));
}

#[test]
fn header_errors_come_before_utf8_errors_of_the_request_line() {
    assert!(matches!(
        Request::parse(b"GET /\xff HTTP/1.1\r\nbad\r\n\r\n"),
        Err(ParseError::MalformedHeader)
    ));
}

#[test]
fn bytes_after_the_head_do_not_matter() {
    let a = Request::parse(b"POST /x HTTP/1.1\r\nA: 1\r\n\r\n").unwrap();
    let b = Request::parse(b"POST /x HTTP/1.1\r\nA: 1\r\n\r\nB: 2\r\n\r\n").unwrap();
    assert_eq!(a.method, b.method);
    assert_eq!(a.path, b.path);
    assert_eq!(header_pairs(&a), header_pairs(&b));
}

#[test]
fn error_messages() {
    assert_eq!(ParseError::NoHeaderTerminator.message(), "No header terminator.");
    assert_eq!(ParseError::TooManyParts.message(), "Too many parts in request line.");
    assert_eq!(ParseError::InvalidUtf8.message(), "Invalid UTF-8");
}

#[test]
fn helpers_trim_and_split() {
    assert_eq!(Request::trim(b"  a b  "), b"a b");
    assert_eq!(Request::trim(b"    "), b"");
    assert_eq!(Request::strip_cr(b"abc\r"), b"abc");
    assert_eq!(Request::strip_cr(b"abc"), b"abc");
    assert_eq!(Request::find_headers_end(b"ab\r\n\r\ncd"), Some(2));
    assert_eq!(Request::find_headers_end(b"ab\r\n\rcd"), None);
    let (m, p, v) = Request::split_request_line(b"PUT /f HTTP/2").unwrap();
    assert_eq!((m, p, v), (&b"PUT"[..], &b"/f"[..], &b"HTTP/2"[..]));
    let (k, v) = Request::parse_header(b" Key :  a:b ").unwrap();
    assert_eq!((k, v), (&b"Key"[..], &b"a:b"[..]));
}
