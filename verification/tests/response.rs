use ferrox::config::{Config, PathsConfig, RouterPreset, ServerConfig, TlsConfig};
use ferrox::http::error;
use ferrox::http::response::{Body, Response};

fn config_with_headers(headers: Vec<(String, String)>) -> Config {
    Config {
        server: ServerConfig {
            http_port: 80,
            https_port: 443,
            addr: "127.0.0.1".to_string(),
            timeout: 10,
            router: RouterPreset::Static,
            index: false,
        },
        paths: PathsConfig { serve_dir: "www".to_string(), log_dir: "logs".to_string() },
        headers,
        tls: TlsConfig { enabled: false, cert_path: String::new(), key_path: String::new() },
    }
}

#[test]
fn new_html_counts_the_body() {
    let r = Response::new_html("200 OK", b"<p>hi</p>".to_vec());
    assert_eq!(r.status, "200 OK");
    assert_eq!(r.content_type, "text/html");
    assert_eq!(r.content_length, 9);
    assert!(r.headers.is_empty());
    assert!(matches!(r.body, Body::Bytes(ref b) if b.as_slice() == b"<p>hi</p>"));
}

#[test]
fn redirect_sets_location() {
    let r = Response::redirect("301 Moved Permanently", "/docs/");
    assert_eq!(r.status, "301 Moved Permanently");
    assert_eq!(r.content_length, 0);
    assert_eq!(r.headers, vec![("Location".to_string(), "/docs/".to_string())]);
}

#[test]
fn error_renders_the_page() {
    let r = Response::error("404", "Not Found");
    assert_eq!(r.status, "404 Not Found");
    assert_eq!(r.content_type, "text/html");
    match r.body {
        Body::Bytes(b) => {
            assert_eq!(r.content_length, b.len() as u64);
            assert_eq!(b, error::render_error("404", "Not Found"));
            let page = String::from_utf8(b).unwrap();
            assert!(page.contains("<h1>404</h1>"));
            assert!(page.contains("<p>Not Found</p>"));
        }
        Body::File(_) => panic!("expected bytes"),
    }
}

#[test]
fn file_response_guesses_the_type() {
    let r = Response::file("/srv/www/docs/doc.js", 42);
    assert_eq!(r.status, "200 OK");
    assert_eq!(r.content_type, "text/javascript");
    assert_eq!(r.content_length, 42);
    assert!(matches!(r.body, Body::File(ref p) if p.as_str() == "/srv/www/docs/doc.js"));
    assert_eq!(Response::file("/a/b.html", 1).content_type, "text/html");
    assert_eq!(Response::file("/a/noext", 1).content_type, "application/octet-stream");
}

#[test]
fn head_lists_fixed_configured_and_own_headers() {
    let config = config_with_headers(vec![(
        "X-Content-Type-Options".to_string(),
        "nosniff".to_string(),
    )]);
    let r = Response::redirect("301 Moved Permanently", "/docs/");
    assert_eq!(
        r.head(&config, "close"),
        "HTTP/1.1 301 Moved Permanently\r\nContent-Type: text/html\r\nContent-Length: 0\r\nConnection: close\r\nServer: Ferrox\r\nX-Content-Type-Options: nosniff\r\nLocation: /docs/\r\n\r\n"
    );
}

#[test]
fn head_adds_keep_alive_timeout() {
    let config = config_with_headers(vec![]);
    let r = Response::new_html("200 OK", vec![1, 2, 3, 4, 5, 6, 7, 8, 9, 10, 11, 12]);
    assert_eq!(
        r.head(&config, "Keep-Alive"),
        "HTTP/1.1 200 OK\r\nContent-Type: text/html\r\nContent-Length: 12\r\nConnection: Keep-Alive\r\nServer: Ferrox\r\nKeep-Alive: timeout=10\r\n\r\n"
    );
}

#[test]
fn head_is_one_header_block() {
    let config = config_with_headers(vec![
        ("X-Frame-Options".to_string(), "DENY".to_string()),
        ("X-Empty".to_string(), String::new()),
    ]);
    let mut r = Response::redirect("301 Moved Permanently", "/docs/");
    r.content_length = 1234567890;
    for connection in ["close", "keep-alive"] {
        let head = r.head(&config, connection);
        assert!(head.ends_with("\r\n\r\n"));
        assert_eq!(head.find("\r\n\r\n"), Some(head.len() - 4));
        assert!(head.contains("Content-Length: 1234567890\r\n"));
    }
}
