use ferrox::http::request::Request;
use ferrox::http::response::Response;
use ferrox::utils::logger::{access_line, error_line, log_path};

#[test]
fn access_line_format() {
    let req = Request::parse(b"GET /x HTTP/1.1\r\nUser-Agent: curl/8\r\n\r\n").unwrap();
    let resp = Response::new_html("200 OK", vec![0; 1234]);
    assert_eq!(
        access_line("1.2.3.4", "2025-01-01 0:00:00.0 +00", &req, &resp, "5.6.7.8"),
        "1.2.3.4 - [2025-01-01 0:00:00.0 +00] \"GET /x HTTP/1.1\" 200 OK 1234 - \"curl/8\" \"5.6.7.8\""
    );
    let req = Request::parse(b"GET / HTTP/1.0\r\n\r\n").unwrap();
    let resp = Response::redirect("301 Moved Permanently", "/a/");
    assert_eq!(
        access_line("::1", "d", &req, &resp, "::1"),
        "::1 - [d] \"GET / HTTP/1.0\" 301 Moved Permanently 0 - \"-\" \"::1\""
    );
}

#[test]
fn error_line_and_path() {
    assert_eq!(error_line("d", "core", "Failed"), "d [core]: Failed");
    assert_eq!(log_path("logs", "access.log"), "logs/access.log");
}
