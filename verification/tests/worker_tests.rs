use apaseh::cache::ResponseCache;
use apaseh::headers::Headers;
use apaseh::http::{FileData, HttpRequest, HttpResponse};
use apaseh::master::{master_action, MasterAction};
use apaseh::proxy::{ProxyError, ProxyRule, ReverseProxy};
use apaseh::signal_handler::{ServerSignal, SignalHandler};
use apaseh::worker::{
    admit_connection, after_proxy, after_serve, begin_request, keep_connection_alive, wire_bytes,
    RequestStep,
};

fn req(method: &str, path: &str, version: &str) -> HttpRequest {
    HttpRequest {
        method: method.to_string(),
        path: path.to_string(),
        version: version.to_string(),
        headers: Headers::new(),
        body: Vec::new(),
    }
}

fn proxy() -> ReverseProxy {
    ReverseProxy::new(vec![ProxyRule {
        path_prefix: "/api".to_string(),
        backend_url: "http://localhost:3000".to_string(),
        strip_prefix: false,
        headers: Headers::new(),
    }])
}

#[test]
fn connections_are_admitted_up_to_the_limit() {
    assert_eq!(admit_connection(0, 2), Some(1));
    assert_eq!(admit_connection(1, 2), Some(2));
    assert_eq!(admit_connection(2, 2), None);
    assert_eq!(admit_connection(0, 0), None);
}

#[test]
fn keep_alive_needs_time_left() {
    let r = req("GET", "/", "HTTP/1.1");
    assert!(keep_connection_alive(&r, 0, 120));
    assert!(keep_connection_alive(&r, 119_999_999_999, 120));
    assert!(!keep_connection_alive(&r, 120_000_000_000, 120));
    let old = req("GET", "/", "HTTP/1.0");
    assert!(!keep_connection_alive(&old, 0, 120));
}

#[test]
fn proxied_paths_go_to_the_proxy() {
    let mut cache = ResponseCache::new(4096 * 10, 60);
    match begin_request(&req("GET", "/api/x", "HTTP/1.1"), &proxy(), &mut cache, 0) {
        RequestStep::Proxy(i) => assert_eq!(i, 0),
        _ => panic!("expected the proxy"),
    }
}

#[test]
fn get_and_head_go_to_the_file_server() {
    let mut cache = ResponseCache::new(4096 * 10, 60);
    match begin_request(&req("GET", "/index.html", "HTTP/1.1"), &proxy(), &mut cache, 0) {
        RequestStep::ServeFile { head } => assert!(!head),
        _ => panic!("expected a file"),
    }
    match begin_request(&req("HEAD", "/index.html", "HTTP/1.1"), &proxy(), &mut cache, 0) {
        RequestStep::ServeFile { head } => assert!(head),
        _ => panic!("expected a file"),
    }
}

#[test]
fn other_methods_get_405() {
    let mut cache = ResponseCache::new(4096 * 10, 60);
    match begin_request(&req("POST", "/index.html", "HTTP/1.1"), &proxy(), &mut cache, 0) {
        RequestStep::Respond(r) => assert_eq!(r.status_code, 405),
        _ => panic!("expected a response"),
    }
}

#[test]
fn served_get_is_cached_and_reused() {
    let mut cache = ResponseCache::new(4096 * 10, 60);
    let get = req("GET", "/page", "HTTP/1.1");
    let mut served = HttpResponse::ok();
    served.set_body_bytes(b"page");
    let out = after_serve(&get, &mut cache, served, 0);
    assert_eq!(out.status_code, 200);
    match begin_request(&get, &proxy(), &mut cache, 1) {
        RequestStep::Respond(r) => assert_eq!(r.headers.get("Content-Length").map(|s| s.as_str()), Some("4")),
        _ => panic!("expected the cached response"),
    }
    match begin_request(&req("POST", "/page", "HTTP/1.1"), &proxy(), &mut cache, 1) {
        RequestStep::Respond(r) => assert_eq!(r.status_code, 200),
        _ => panic!("expected the cached response"),
    }
}

#[test]
fn head_and_errors_are_not_cached() {
    let mut cache = ResponseCache::new(4096 * 10, 60);
    after_serve(&req("HEAD", "/h", "HTTP/1.1"), &mut cache, HttpResponse::ok(), 0);
    after_serve(&req("GET", "/n", "HTTP/1.1"), &mut cache, HttpResponse::not_found(), 0);
    assert!(cache.get("/h", 0).is_none());
    assert!(cache.get("/n", 0).is_none());
}

#[test]
fn proxy_results() {
    assert_eq!(after_proxy(Err(ProxyError::InvalidBackendUrl)).status_code, 502);
    let r = after_proxy(Err(ProxyError::InvalidBackendUrl));
    assert!(r.body.is_none());
    assert_eq!(after_proxy(Ok(HttpResponse::new(201))).status_code, 201);
}

#[test]
fn wire_bytes_of_bytes_body() {
    let mut r = HttpResponse::ok();
    r.set_body_bytes(b"hi");
    let mut expected = r.headers_bytes();
    expected.extend_from_slice(b"hi");
    assert_eq!(wire_bytes(&r, true), expected);
}

#[test]
fn wire_bytes_of_file_body() {
    let mut r = HttpResponse::ok();
    r.set_body_file(FileData { data: b"xy".to_vec(), mime_type: "text/plain".to_string() });
    let head = r.headers_bytes();
    let mut once = head.clone();
    once.extend_from_slice(b"xy");
    let mut twice = head;
    twice.extend_from_slice(b"xyxy");
    assert_eq!(wire_bytes(&r, false), once);
    assert_eq!(wire_bytes(&r, true), twice);
}

#[test]
fn master_reacts_to_signals() {
    assert_eq!(master_action(Some(ServerSignal::Terminate)), MasterAction::Shutdown);
    assert_eq!(master_action(Some(ServerSignal::Interrupt)), MasterAction::Shutdown);
    assert_eq!(master_action(Some(ServerSignal::Hangup)), MasterAction::Reload);
    assert_eq!(master_action(Some(ServerSignal::ChildExited)), MasterAction::WorkerExited);
    assert_eq!(master_action(Some(ServerSignal::Other)), MasterAction::Continue);
    assert_eq!(master_action(None), MasterAction::Continue);
    let _h = SignalHandler::new();
}
