use std::sync::Arc;

use apaseh::config::Config;
use apaseh::file_server::FileServer;
use apaseh::http::ResponseBody;

fn server(root: &str) -> FileServer {
    let mut c = Config::with_cpus(1);
    c.root = root.to_string();
    FileServer::new(Arc::new(c))
}

#[test]
fn resolve_default_root() {
    let s = server("./static");
    assert_eq!(s.resolve_path("/"), "./static/index.html");
    assert_eq!(s.resolve_path(""), "./static/index.html");
    assert_eq!(s.resolve_path("/css/site.css"), "./static/css/site.css");
    assert_eq!(s.resolve_path("///a.txt"), "./static/a.txt");
}

#[test]
fn resolve_root_with_trailing_slash() {
    let s = server("/srv/www/");
    assert_eq!(s.resolve_path("/a"), "/srv/www/a");
}

#[test]
fn resolve_empty_root() {
    let s = server("");
    assert_eq!(s.resolve_path("/a/b"), "a/b");
}

#[test]
fn dot_dot_is_not_normalised() {
    let s = server("./static");
    assert_eq!(s.resolve_path("/../secret"), "./static/../secret");
}

#[test]
fn confine_outside_root() {
    let s = server("./static");
    assert_eq!(s.confine_path("/x", false), "./static/index.html");
    assert_eq!(s.confine_path("/x", true), "./static/x");
}

#[test]
fn missing_file_is_404() {
    let r = FileServer::file_response("./static/none.html", false, None);
    assert_eq!(r.status_code, 404);
    assert_eq!(r.headers.get("Content-Length").map(|s| s.as_str()), Some("13"));
}

#[test]
fn file_body_with_guessed_type() {
    let r = FileServer::file_response("./static/index.html", false, Some(b"<h1>hi</h1>".to_vec()));
    assert_eq!(r.status_code, 200);
    assert_eq!(r.headers.get("Content-Type").map(|s| s.as_str()), Some("text/html"));
    assert_eq!(r.headers.get("Content-Length").map(|s| s.as_str()), Some("11"));
    match r.body {
        Some(ResponseBody::File(f)) => {
            assert_eq!(f.data, b"<h1>hi</h1>".to_vec());
            assert_eq!(f.mime_type, "text/html");
        }
        _ => panic!("expected a file body"),
    }
}

#[test]
fn head_request_only_type() {
    let r = FileServer::file_response("./static/logo.png", true, Some(Vec::new()));
    assert_eq!(r.status_code, 200);
    assert_eq!(r.headers.get("Content-Type").map(|s| s.as_str()), Some("image/png"));
    assert!(r.headers.get("Content-Length").is_none());
    assert!(r.body.is_none());
}

#[test]
fn unknown_extension_is_octet_stream() {
    let r = FileServer::file_response("./static/data.unknownext", true, Some(Vec::new()));
    assert_eq!(r.headers.get("Content-Type").map(|s| s.as_str()), Some("application/octet-stream"));
}

#[test]
fn response_for_given_type() {
    let r = FileServer::response_for(false, Some(vec![1, 2]), "a/b".to_string());
    assert_eq!(r.headers.get("Content-Type").map(|s| s.as_str()), Some("a/b"));
}
