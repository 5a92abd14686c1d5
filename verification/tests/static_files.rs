use ferrox::config::RouterPreset;
use ferrox::handlers::static_files::{
    join, path_within, render_listing, trim_start_slashes, FileServer, Reply, ServeAction,
    ServeEvent,
};
use ferrox::http::response::{Body, Response};

/// An in-memory file tree: directories and files (with their lengths), by absolute path.
struct FakeFs {
    dirs: Vec<String>,
    files: Vec<(String, u64)>,
}

impl FakeFs {
    fn new(dirs: &[&str], files: &[(&str, u64)]) -> FakeFs {
        FakeFs {
            dirs: dirs.iter().map(|d| d.to_string()).collect(),
            files: files.iter().map(|(f, n)| (f.to_string(), *n)).collect(),
        }
    }

    fn normalize(path: &str) -> String {
        let mut parts: Vec<&str> = Vec::new();
        for c in path.split('/') {
            match c {
                "" | "." => {}
                ".." => {
                    parts.pop();
                }
                c => parts.push(c),
            }
        }
        format!("/{}", parts.join("/"))
    }

    fn is_dir(&self, p: &str) -> bool {
        self.dirs.iter().any(|d| d == p)
    }

    fn file_len(&self, p: &str) -> Option<u64> {
        self.files.iter().find(|(f, _)| f == p).map(|(_, n)| *n)
    }

    fn canonicalize(&self, p: &str) -> Option<String> {
        let n = FakeFs::normalize(p);
        if self.is_dir(&n) || self.file_len(&n).is_some() {
            Some(n)
        } else {
            None
        }
    }

    fn list(&self, dir: &str) -> Vec<(String, bool)> {
        let prefix = format!("{}/", dir);
        let mut out = Vec::new();
        for d in &self.dirs {
            if let Some(rest) = d.strip_prefix(&prefix) {
                if !rest.contains('/') {
                    out.push((rest.to_string(), true));
                }
            }
        }
        for (f, _) in &self.files {
            if let Some(rest) = f.strip_prefix(&prefix) {
                if !rest.contains('/') {
                    out.push((rest.to_string(), false));
                }
            }
        }
        out
    }
}

fn serve(fs: &FakeFs, file_path: &str, logic: RouterPreset, index: bool) -> Option<Response> {
    let (mut server, mut action) = FileServer::new(file_path, "/tmp/root/serve", logic, index);
    for _ in 0..20 {
        let event = match action {
            ServeAction::Canonicalize(p) => ServeEvent::Canonical(fs.canonicalize(&p)),
            ServeAction::IsDir(p) => ServeEvent::Flag(fs.is_dir(&p)),
            ServeAction::Exists(p) => {
                ServeEvent::Flag(fs.is_dir(&p) || fs.file_len(&p).is_some())
            }
            ServeAction::ListDir(p) => ServeEvent::Entries(Some(fs.list(&p))),
            ServeAction::Open(p) => ServeEvent::Opened(fs.file_len(&p)),
            ServeAction::Respond(reply) => return Some(reply.into_response()),
            ServeAction::Fail => return None,
        };
        action = server.step(event);
    }
    panic!("the server did not finish");
}

#[test]
fn redirects_directory_without_trailing_slash() {
    let fs = FakeFs::new(&["/tmp/root", "/tmp/root/serve", "/tmp/root/serve/docs"], &[]);
    let response = serve(&fs, "/docs", RouterPreset::Static, false)
        .expect("directory request should succeed");
    assert_eq!(response.status, "301 Moved Permanently");
    assert_eq!(response.headers, vec![("Location".to_string(), "/docs/".to_string())]);
}

#[test]
fn blocks_path_traversal_outside_serving_root() {
    let fs = FakeFs::new(&["/tmp/root", "/tmp/root/serve"], &[("/tmp/root/secret.txt", 6)]);
    let response = serve(&fs, "/../secret.txt", RouterPreset::Static, false)
        .expect("traversal attempt should return a response");
    assert_eq!(response.status, "403 Forbidden");
}

#[test]
fn blocks_sibling_directory_with_common_prefix() {
    let fs = FakeFs::new(
        &["/tmp/root", "/tmp/root/serve", "/tmp/root/serve2"],
        &[("/tmp/root/serve2/a.txt", 1)],
    );
    let response = serve(&fs, "/../serve2/a.txt", RouterPreset::Static, false).unwrap();
    assert_eq!(response.status, "403 Forbidden");
}

#[test]
fn serves_index_html_from_directory() {
    let fs = FakeFs::new(
        &["/tmp/root", "/tmp/root/serve", "/tmp/root/serve/docs"],
        &[("/tmp/root/serve/docs/index.html", 13)],
    );
    let response = serve(&fs, "/docs/", RouterPreset::Static, false)
        .expect("directory request should succeed");
    match response.body {
        Body::File(ref p) => assert_eq!(p, "/tmp/root/serve/docs/index.html"),
        Body::Bytes(_) => panic!("expected file-backed response"),
    }
    assert_eq!(response.status, "200 OK");
    assert_eq!(response.content_type, "text/html");
    assert_eq!(response.content_length, 13);
}

#[test]
fn directory_listing_hides_dotfiles_and_marks_subdirectories() {
    let fs = FakeFs::new(
        &["/tmp/root", "/tmp/root/serve", "/tmp/root/serve/docs", "/tmp/root/serve/docs/nested"],
        &[("/tmp/root/serve/docs/file.txt", 7), ("/tmp/root/serve/docs/.hidden", 6)],
    );
    let response = serve(&fs, "/docs/", RouterPreset::Static, true)
        .expect("directory request should succeed");
    let body = match response.body {
        Body::Bytes(bytes) => String::from_utf8(bytes).expect("listing should be utf-8"),
        Body::File(_) => panic!("expected in-memory directory listing"),
    };
    assert!(body.contains("file.txt"), "body was: {body}");
    assert!(body.contains("nested&#x2F;"), "body was: {body}");
    assert!(!body.contains(".hidden"), "body was: {body}");
    assert_eq!(response.status, "200 OK");
}

#[test]
fn directory_listing_returns_forbidden_when_index_disabled() {
    let fs = FakeFs::new(
        &["/tmp/root", "/tmp/root/serve", "/tmp/root/serve/docs", "/tmp/root/serve/docs/nested"],
        &[("/tmp/root/serve/docs/file.txt", 7)],
    );
    let response = serve(&fs, "/docs/", RouterPreset::Static, false)
        .expect("directory request should succeed");
    assert_eq!(response.status, "403 Forbidden");
}

#[test]
fn serves_index_when_spa() {
    let fs = FakeFs::new(&["/tmp/root", "/tmp/root/serve"], &[("/tmp/root/serve/index.html", 19)]);
    let response = serve(&fs, "/docs/getting-started", RouterPreset::Spa, false)
        .expect("directory request should succeed");
    match response.body {
        Body::File(_) => {}
        Body::Bytes(_) => panic!("expected file-backed response"),
    }
    assert_eq!(response.status, "200 OK");
    assert_eq!(response.content_type, "text/html");
}

#[test]
fn not_found_when_no_index_but_spa() {
    let fs = FakeFs::new(&["/tmp/root", "/tmp/root/serve"], &[]);
    let response = serve(&fs, "/docs/getting-started", RouterPreset::Spa, false)
        .expect("directory request should succeed");
    match response.body {
        Body::Bytes(_) => {}
        Body::File(_) => panic!("expected byte-backed response"),
    }
    assert_eq!(response.status, "404 Not Found");
}

#[test]
fn not_found_when_static_and_missing() {
    let fs = FakeFs::new(&["/tmp/root", "/tmp/root/serve"], &[]);
    let response = serve(&fs, "/missing.txt", RouterPreset::Static, false).unwrap();
    assert_eq!(response.status, "404 Not Found");
}

#[test]
fn serves_index_when_dir_exists() {
    let fs = FakeFs::new(
        &["/tmp/root", "/tmp/root/serve", "/tmp/root/serve/docs"],
        &[("/tmp/root/serve/index.html", 19)],
    );
    let response = serve(&fs, "/docs", RouterPreset::Spa, false)
        .expect("directory request should succeed");
    match response.body {
        Body::File(ref p) => assert_eq!(p, "/tmp/root/serve/index.html"),
        Body::Bytes(_) => panic!("expected file-backed response"),
    }
    assert_eq!(response.status, "200 OK");
    assert_eq!(response.content_type, "text/html");
}

#[test]
fn serves_actual_file_when_spa() {
    let fs = FakeFs::new(
        &["/tmp/root", "/tmp/root/serve", "/tmp/root/serve/docs"],
        &[("/tmp/root/serve/docs/doc.js", 39)],
    );
    let response = serve(&fs, "/docs/doc.js", RouterPreset::Spa, false)
        .expect("directory request should succeed");
    match response.body {
        Body::File(_) => {}
        Body::Bytes(_) => panic!("expected file-backed response"),
    }
    assert_eq!(response.status, "200 OK");
    assert_eq!(response.content_type, "text/javascript");
}

#[test]
fn failure_to_resolve_the_serving_directory_fails() {
    let fs = FakeFs::new(&[], &[]);
    assert!(serve(&fs, "/", RouterPreset::Static, false).is_none());
}

#[test]
fn path_helpers() {
    assert_eq!(trim_start_slashes("///a/b/"), "a/b/");
    assert_eq!(trim_start_slashes("a"), "a");
    assert_eq!(join("/srv", "a"), "/srv/a");
    assert_eq!(join("/srv/", "a"), "/srv/a");
    assert_eq!(join("/srv", ""), "/srv/");
    assert_eq!(join("/srv", "/etc"), "/etc");
    assert!(path_within("/srv/www", "/srv/www"));
    assert!(path_within("/srv/www/a", "/srv/www"));
    assert!(path_within("/a", "/"));
    assert!(!path_within("/srv/www2", "/srv/www"));
    assert!(!path_within("/srv", "/srv/www"));
}

#[test]
fn listing_markup() {
    let entries = vec![
        ("b<c".to_string(), false),
        ("sub".to_string(), true),
        (".git".to_string(), true),
    ];
    let page = String::from_utf8(render_listing("/x/", &entries)).unwrap();
    assert!(page.contains(
        "<li><a href=\"..\">..</a></li><li><a href=\"b&lt;c\">b&lt;c</a></li><li><a href=\"sub&#x2F;\">sub&#x2F;</a></li>"
    ));
    assert!(!page.contains(".git"));
    let root = String::from_utf8(render_listing("/", &entries)).unwrap();
    assert!(!root.contains("href=\"..\""));
    assert!(matches!(Reply::Forbidden.into_response().status.as_str(), "403 Forbidden"));
}

/// Runs a whole exchange and returns every path that was inspected, listed or opened
/// after the serving directory was resolved, with the reply.
fn touched_paths(fs: &FakeFs, file_path: &str, logic: RouterPreset, index: bool) -> (Vec<String>, Option<Response>) {
    let (mut server, mut action) = FileServer::new(file_path, "/tmp/root/serve", logic, index);
    let mut touched = Vec::new();
    for _ in 0..20 {
        let event = match action {
            ServeAction::Canonicalize(p) => ServeEvent::Canonical(fs.canonicalize(&p)),
            ServeAction::IsDir(p) => {
                touched.push(p.clone());
                ServeEvent::Flag(fs.is_dir(&p))
            }
            ServeAction::Exists(p) => {
                touched.push(p.clone());
                ServeEvent::Flag(fs.is_dir(&p) || fs.file_len(&p).is_some())
            }
            ServeAction::ListDir(p) => {
                touched.push(p.clone());
                ServeEvent::Entries(Some(fs.list(&p)))
            }
            ServeAction::Open(p) => {
                touched.push(p.clone());
                ServeEvent::Opened(fs.file_len(&p))
            }
            ServeAction::Respond(reply) => return (touched, Some(reply.into_response())),
            ServeAction::Fail => return (touched, None),
        };
        action = server.step(event);
    }
    panic!("the server did not finish");
}

#[test]
fn whole_exchanges_touch_only_paths_inside_the_root() {
    let fs = FakeFs::new(
        &["/tmp/root", "/tmp/root/serve", "/tmp/root/serve/docs", "/tmp/root/serve2"],
        &[("/tmp/root/secret.txt", 6), ("/tmp/root/serve/docs/a.txt", 3), ("/tmp/root/serve2/b.txt", 1)],
    );
    let requests = ["/", "/docs/", "/docs", "/docs/a.txt", "/../secret.txt", "/../serve2/b.txt", "/missing"];
    for logic in [RouterPreset::Static, RouterPreset::Spa] {
        for index in [false, true] {
            for request in requests {
                let (touched, _) = touched_paths(&fs, request, logic, index);
                for p in &touched {
                    assert!(path_within(p, "/tmp/root/serve"), "{} touched for {}", p, request);
                }
            }
        }
    }
    let (touched, response) = touched_paths(&fs, "/../secret.txt", RouterPreset::Spa, true);
    assert!(touched.is_empty());
    assert_eq!(response.unwrap().status, "403 Forbidden");
}
