use apaseh::config::Config;
use apaseh::headers::Headers;
use apaseh::http::{HttpRequest, HttpResponse, ResponseBody};
use apaseh::proxy::{ProxyError, ProxyOutcome, ProxyRule, ReverseProxy};

fn rule(prefix: &str, backend: &str, strip: bool) -> ProxyRule {
    ProxyRule {
        path_prefix: prefix.to_string(),
        backend_url: backend.to_string(),
        strip_prefix: strip,
        headers: Headers::new(),
    }
}

fn get_request(path: &str) -> HttpRequest {
    HttpRequest {
        method: "GET".to_string(),
        path: path.to_string(),
        version: "HTTP/1.1".to_string(),
        headers: Headers::new(),
        body: Vec::new(),
    }
}

#[test]
fn new_proxy_has_30s_timeout() {
    let p = ReverseProxy::new(vec![rule("/api", "http://x", false)]);
    assert_eq!(p.timeout_secs, 30);
    assert_eq!(p.rules.len(), 1);
}

#[test]
fn matching_without_trailing_slash() {
    let p = ReverseProxy::new(vec![rule("/api", "http://a", false)]);
    assert!(p.should_proxy("/api").is_some());
    assert!(p.should_proxy("/api/users").is_some());
    assert!(p.should_proxy("/apix").is_none());
    assert!(p.should_proxy("/ap").is_none());
    assert!(p.should_proxy("/").is_none());
}

#[test]
fn matching_with_trailing_slash() {
    let p = ReverseProxy::new(vec![rule("/api/", "http://a", false)]);
    assert!(p.should_proxy("/api").is_some());
    assert!(p.should_proxy("/api/").is_some());
    assert!(p.should_proxy("/api/v1").is_some());
    assert!(p.should_proxy("/apiv1").is_none());
}

#[test]
fn first_matching_rule_wins() {
    let p = ReverseProxy::new(vec![
        rule("/a/b", "http://first", false),
        rule("/a", "http://second", false),
        rule("/a/b", "http://third", false),
    ]);
    assert_eq!(p.should_proxy("/a/b/c").unwrap().backend_url, "http://first");
    assert_eq!(p.should_proxy("/a/x").unwrap().backend_url, "http://second");
    assert_eq!(p.find_rule("/a"), Some(1));
    assert_eq!(p.find_rule("/b"), None);
}

#[test]
fn backend_paths() {
    let strip = rule("/api", "http://a", true);
    assert_eq!(ReverseProxy::backend_path("/api", &strip), "/");
    assert_eq!(ReverseProxy::backend_path("/api/users", &strip), "/users");
    assert_eq!(ReverseProxy::backend_path("/other", &strip), "/other");
    let strip_slash = rule("/api/", "http://a", true);
    assert_eq!(ReverseProxy::backend_path("/api", &strip_slash), "/");
    assert_eq!(ReverseProxy::backend_path("/api/v1/x", &strip_slash), "/v1/x");
    let keep = rule("/api", "http://a", false);
    assert_eq!(ReverseProxy::backend_path("/api/users", &keep), "/api/users");
    assert_eq!(ReverseProxy::backend_path("rel", &keep), "/rel");
}

#[test]
fn backend_address_defaults() {
    let (h, p) = ReverseProxy::backend_address(None, None);
    assert_eq!(h, "localhost");
    assert_eq!(p, 80);
    let (h2, p2) = ReverseProxy::backend_address(Some("x".to_string()), Some(9));
    assert_eq!(h2, "x");
    assert_eq!(p2, 9);
}

#[test]
fn prepare_request_builds_bytes() {
    let p = ReverseProxy::new(Vec::new());
    let mut r = rule("/api", "http://backend.local:3000", true);
    r.headers.insert("X-Rule".to_string(), "r".to_string());
    r.headers.insert("Host".to_string(), "ignored".to_string());
    let mut req = get_request("/api/users");
    req.method = "POST".to_string();
    req.headers.insert("host".to_string(), "client.example".to_string());
    req.headers.insert("accept".to_string(), "*/*".to_string());
    req.headers.insert("connection".to_string(), "keep-alive".to_string());
    req.body = b"abc".to_vec();
    let plan = p.prepare_request(&req, &r).ok().unwrap();
    assert_eq!(plan.address, "backend.local:3000");
    let expected = "POST /users HTTP/1.1\r\n\
                    Host: backend.local\r\n\
                    X-Forwarded-Host: client.example\r\n\
                    X-Forwarded-For: proxy\r\n\
                    X-Forwarded-Proto: http\r\n\
                    accept: */*\r\n\
                    X-Rule: r\r\n\
                    Connection: close\r\n\
                    \r\n\
                    abc";
    assert_eq!(String::from_utf8(plan.request_bytes).unwrap(), expected);
}

#[test]
fn prepare_request_forwarded_for_chain() {
    let p = ReverseProxy::new(Vec::new());
    let r = rule("/", "http://10.0.0.1", false);
    let mut req = get_request("/x");
    req.headers.insert("x-forwarded-for".to_string(), "1.2.3.4".to_string());
    let plan = p.prepare_request(&req, &r).ok().unwrap();
    assert_eq!(plan.address, "10.0.0.1:80");
    let text = String::from_utf8(plan.request_bytes).unwrap();
    assert!(text.starts_with("GET /x HTTP/1.1\r\nHost: 10.0.0.1\r\nX-Forwarded-For: 1.2.3.4, proxy\r\n"));
    assert!(text.contains("x-forwarded-for: 1.2.3.4\r\n"));
}

#[test]
fn default_port_is_not_explicit() {
    let p = ReverseProxy::new(Vec::new());
    let plan = p.prepare_request(&get_request("/"), &rule("/", "https://secure.example", false)).ok().unwrap();
    assert_eq!(plan.address, "secure.example:80");
}

#[test]
fn invalid_backend_url() {
    let p = ReverseProxy::new(Vec::new());
    let e = p.prepare_request(&get_request("/"), &rule("/", "not a url", false)).err();
    assert_eq!(e, Some(ProxyError::InvalidBackendUrl));
}

#[test]
fn find_headers_end_positions() {
    let p = ReverseProxy::new(Vec::new());
    assert_eq!(p.find_headers_end(b"HTTP/1.1 200 OK\r\n\r\nbody"), Some(15));
    assert_eq!(p.find_headers_end(b"\r\n\r\n"), Some(0));
    assert_eq!(p.find_headers_end(b"\r\n\r"), None);
    assert_eq!(p.find_headers_end(b""), None);
    assert_eq!(p.find_headers_end(b"a\r\n\r\nb\r\n\r\n"), Some(1));
}

#[test]
fn backend_head_parsing() {
    let p = ReverseProxy::new(Vec::new());
    let buf = b"HTTP/1.1 201 Created\r\nContent-Length: 5\r\nX-A:  b \r\n\r\nhel".to_vec();
    let end = p.find_headers_end(&buf);
    let head = ReverseProxy::parse_backend_head(&buf, end).ok().unwrap();
    assert_eq!(head.status_code, 201);
    assert_eq!(head.content_length, Some(5));
    assert_eq!(head.initial_body, b"hel".to_vec());
    assert_eq!(head.remaining_body(), Some(2));
    assert_eq!(head.headers.get("x-a").map(|s| s.as_str()), Some("b"));
    let resp = head.into_response(b"lo".to_vec());
    assert_eq!(resp.status_code, 201);
    assert_eq!(resp.status_text, "Unknown");
    assert_eq!(resp.headers.get("content-length").map(|s| s.as_str()), Some("5"));
    assert!(resp.headers.get("Server").is_none());
    match resp.body {
        Some(ResponseBody::Bytes(b)) => assert_eq!(b, b"hello".to_vec()),
        _ => panic!("expected a body"),
    }
}

#[test]
fn backend_head_without_length_or_body() {
    let buf = b"HTTP/1.0 204 No Content\r\nContent-Length: x\r\n\r\n".to_vec();
    let head = ReverseProxy::parse_backend_head(&buf, Some(buf.len() - 4)).ok().unwrap();
    assert_eq!(head.status_code, 204);
    assert_eq!(head.content_length, None);
    assert_eq!(head.remaining_body(), None);
    let resp = head.into_response(Vec::new());
    assert!(resp.body.is_none());
}

#[test]
fn backend_head_errors() {
    let b1 = b"\r\n\r\n".to_vec();
    assert_eq!(ReverseProxy::parse_backend_head(&b1, Some(0)).err(), Some(ProxyError::NoStatusLine));
    let b2 = b"HTTP/1.1\r\n\r\n".to_vec();
    assert_eq!(ReverseProxy::parse_backend_head(&b2, Some(8)).err(), Some(ProxyError::NoStatusCode));
    let b3 = b"HTTP/1.1 abc\r\n\r\n".to_vec();
    assert_eq!(ReverseProxy::parse_backend_head(&b3, Some(12)).err(), Some(ProxyError::InvalidStatusCode));
    let b4 = b"HTTP/1.1 70000\r\n\r\n".to_vec();
    assert_eq!(ReverseProxy::parse_backend_head(&b4, Some(14)).err(), Some(ProxyError::InvalidStatusCode));
    assert_eq!(ReverseProxy::parse_backend_head(&b4, None).err(), Some(ProxyError::NoHeadersEnd));
}

#[test]
fn backend_head_with_invalid_utf8() {
    let mut buf = b"HTTP/1.1 200 OK\r\nX-Bin: ".to_vec();
    buf.push(0xff);
    buf.extend_from_slice(b"\r\n\r\n");
    let end = ReverseProxy::new(Vec::new()).find_headers_end(&buf);
    let head = ReverseProxy::parse_backend_head(&buf, end).ok().unwrap();
    assert_eq!(head.headers.get("x-bin").map(|s| s.as_str()), Some("\u{fffd}"));
}

#[test]
fn outcome_responses() {
    let p = ReverseProxy::new(Vec::new());
    let r = p.outcome_response(ProxyOutcome::ConnectTimedOut);
    assert_eq!(r.status_code, 504);
    assert_eq!(r.headers.get("Content-Length").map(|s| s.as_str()), Some("15"));
    assert_eq!(p.outcome_response(ProxyOutcome::ReadTimedOut).status_code, 504);
    assert_eq!(p.outcome_response(ProxyOutcome::ConnectFailed).status_code, 502);
    assert_eq!(p.outcome_response(ProxyOutcome::ForwardFailed).status_code, 502);
    assert_eq!(p.outcome_response(ProxyOutcome::ReadFailed).status_code, 502);
    assert_eq!(p.outcome_response(ProxyOutcome::Received(HttpResponse::new(418))).status_code, 418);
}

#[test]
fn create_error_response_body() {
    let p = ReverseProxy::new(Vec::new());
    let r = p.create_error_response(502, "Bad Gateway");
    assert_eq!(r.status_text, "Unknown");
    assert_eq!(r.headers.get("Content-Type").map(|s| s.as_str()), Some("text/plain"));
    match r.body {
        Some(ResponseBody::Bytes(b)) => assert_eq!(b, b"Bad Gateway".to_vec()),
        _ => panic!("expected a body"),
    }
}

#[test]
fn config_rules_feed_the_proxy() {
    let c = Config::parse_with_cpus("proxy = /api=http://localhost:3000,strip_prefix=true", 1).ok().unwrap();
    let p = ReverseProxy::new(c.proxy_rules.clone());
    let rule = p.should_proxy("/api/items").unwrap();
    assert_eq!(ReverseProxy::backend_path("/api/items", rule), "/items");
    let plan = p.prepare_request(&get_request("/api/items"), rule).ok().unwrap();
    assert_eq!(plan.address, "localhost:3000");
}

#[test]
fn rendered_response_reads_back() {
    let p = ReverseProxy::new(Vec::new());
    let mut original = HttpResponse::new(200);
    original.set_body_bytes("héllo".as_bytes());
    original.insert_header("X-Trace-Id".to_string(), "ab:cd é".to_string());
    let mut buf = original.headers_bytes();
    buf.extend_from_slice("héllo".as_bytes());
    let end = p.find_headers_end(&buf);
    assert_eq!(end, Some(original.headers_bytes().len() - 4));
    let head = ReverseProxy::parse_backend_head(&buf, end).ok().unwrap();
    assert_eq!(head.status_code, 200);
    assert_eq!(head.content_length, Some(6));
    assert_eq!(head.headers.len(), 4);
    assert_eq!(head.headers.get("server").map(|s| s.as_str()), Some("Apaseh/1.0"));
    assert_eq!(head.headers.get("connection").map(|s| s.as_str()), Some("keep-alive"));
    assert_eq!(head.headers.get("content-length").map(|s| s.as_str()), Some("6"));
    assert_eq!(head.headers.get("x-trace-id").map(|s| s.as_str()), Some("ab:cd é"));
    assert_eq!(head.remaining_body(), Some(0));
    let resp = head.into_response(Vec::new());
    match resp.body {
        Some(ResponseBody::Bytes(b)) => assert_eq!(b, "héllo".as_bytes().to_vec()),
        _ => panic!("expected a body"),
    }
}
