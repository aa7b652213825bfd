use apaseh::headers::Headers;
use apaseh::http::{FileData, HttpRequest, HttpResponse, RequestError, RequestHead, ResponseBody};

fn header<'a>(r: &'a HttpResponse, k: &str) -> Option<&'a str> {
    r.headers.get(k).map(|s| s.as_str())
}

fn body_bytes(r: &HttpResponse) -> Option<Vec<u8>> {
    match &r.body {
        Some(ResponseBody::Bytes(d)) => Some(d.clone()),
        Some(ResponseBody::File(f)) => Some(f.data.clone()),
        None => None,
    }
}

#[test]
fn new_response_has_standard_headers() {
    let r = HttpResponse::new(200);
    assert_eq!(r.status_code, 200);
    assert_eq!(r.status_text, "OK");
    assert_eq!(header(&r, "Server"), Some("Apaseh/1.0"));
    assert_eq!(header(&r, "Connection"), Some("keep-alive"));
    assert_eq!(r.headers.len(), 2);
    assert!(r.body.is_none());
}

#[test]
fn status_texts() {
    assert_eq!(HttpResponse::status_text(200), "OK");
    assert_eq!(HttpResponse::status_text(400), "Not Found");
    assert_eq!(HttpResponse::status_text(405), "Method Not Allowed");
    assert_eq!(HttpResponse::status_text(500), "Internal Server Error");
    assert_eq!(HttpResponse::status_text(404), "Unknown");
    assert_eq!(HttpResponse::status_text(502), "Unknown");
}

#[test]
fn ok_is_200() {
    let r = HttpResponse::ok();
    assert_eq!(r.status_code, 200);
    assert_eq!(r.status_text, "OK");
}

#[test]
fn not_found_response() {
    let r = HttpResponse::not_found();
    assert_eq!(r.status_code, 404);
    assert_eq!(r.status_text, "Unknown");
    assert_eq!(header(&r, "Content-Length"), Some("13"));
    assert_eq!(header(&r, "Content-Type"), Some("text/plain"));
    assert_eq!(body_bytes(&r), Some(b"404 not found".to_vec()));
}

#[test]
fn method_not_allowed_response() {
    let r = HttpResponse::method_not_allowed();
    assert_eq!(r.status_code, 405);
    assert_eq!(r.status_text, "Method Not Allowed");
    assert_eq!(header(&r, "Content-Length"), Some("22"));
    assert_eq!(body_bytes(&r), Some(b"405 method not allowed".to_vec()));
}

#[test]
fn set_body_bytes_sets_length() {
    let mut r = HttpResponse::ok();
    r.set_body_bytes(b"hello world");
    assert_eq!(header(&r, "Content-Length"), Some("11"));
    assert_eq!(body_bytes(&r), Some(b"hello world".to_vec()));
    r.set_body_bytes(b"");
    assert_eq!(header(&r, "Content-Length"), Some("0"));
    assert_eq!(r.headers.len(), 3);
}

#[test]
fn set_body_file_sets_length_and_type() {
    let mut r = HttpResponse::ok();
    r.set_body_file(FileData { data: vec![1, 2, 3, 4, 5, 6, 7, 8, 9, 10, 11, 12], mime_type: "image/png".to_string() });
    assert_eq!(header(&r, "Content-Length"), Some("12"));
    assert_eq!(header(&r, "Content-Type"), Some("image/png"));
    match &r.body {
        Some(ResponseBody::File(f)) => assert_eq!(f.mime_type, "image/png"),
        _ => panic!("expected a file body"),
    }
}

#[test]
fn body_len_counts_bytes() {
    assert_eq!(ResponseBody::Bytes(vec![1, 2, 3]).len(), 3);
    let f = FileData { data: vec![0; 70000], mime_type: "text/plain".to_string() };
    assert_eq!(ResponseBody::File(f).len(), 70000);
}

#[test]
fn headers_bytes_renders_head() {
    let r = HttpResponse::ok();
    assert_eq!(
        String::from_utf8(r.headers_bytes()).unwrap(),
        "HTTP/1.1 200 OK\r\nServer: Apaseh/1.0\r\nConnection: keep-alive\r\n\r\n"
    );
    let nf = HttpResponse::not_found();
    assert_eq!(
        String::from_utf8(nf.headers_bytes()).unwrap(),
        "HTTP/1.1 404 Unknown\r\nServer: Apaseh/1.0\r\nConnection: keep-alive\r\nContent-Length: 13\r\nContent-Type: text/plain\r\n\r\n"
    );
}

#[test]
fn headers_bytes_encodes_utf8() {
    let mut r = HttpResponse::new(7);
    r.insert_header("X-Name".to_string(), "café".to_string());
    let bytes = r.headers_bytes();
    let text = "HTTP/1.1 7 Unknown\r\nServer: Apaseh/1.0\r\nConnection: keep-alive\r\nX-Name: café\r\n\r\n";
    assert_eq!(bytes, text.as_bytes().to_vec());
}

#[test]
fn request_line_parses() {
    let head = RequestHead::from_request_line("GET /index.html HTTP/1.1\r\n").ok().unwrap();
    assert_eq!(head.method, "GET");
    assert_eq!(head.path, "/index.html");
    assert_eq!(head.version, "HTTP/1.1");
    assert_eq!(head.headers.len(), 0);
}

#[test]
fn request_line_extra_spaces() {
    let head = RequestHead::from_request_line("  POST\t/a   HTTP/1.0  \n").ok().unwrap();
    assert_eq!(head.method, "POST");
    assert_eq!(head.path, "/a");
    assert_eq!(head.version, "HTTP/1.0");
}

#[test]
fn request_line_errors() {
    assert_eq!(RequestHead::from_request_line("").err(), Some(RequestError::EmptyRequestLine));
    assert_eq!(RequestHead::from_request_line("\r\n").err(), Some(RequestError::InvalidRequestLine));
    assert_eq!(RequestHead::from_request_line("GET /\r\n").err(), Some(RequestError::InvalidRequestLine));
    assert_eq!(
        RequestHead::from_request_line("GET / HTTP/1.1 extra\r\n").err(),
        Some(RequestError::InvalidRequestLine)
    );
}

#[test]
fn header_lines_are_stored_lowercased_and_trimmed() {
    let mut head = RequestHead::from_request_line("GET / HTTP/1.1\r\n").ok().unwrap();
    assert!(!head.push_header_line("Host:  example.com \r\n"));
    assert!(!head.push_header_line("X-Custom-HEADER: a:b\r\n"));
    assert!(!head.push_header_line("no colon here\r\n"));
    assert!(!head.push_header_line("host: second\r\n"));
    assert!(head.push_header_line("\r\n"));
    assert_eq!(head.headers.get("host").map(|s| s.as_str()), Some("second"));
    assert_eq!(head.headers.get("x-custom-header").map(|s| s.as_str()), Some("a:b"));
    assert_eq!(head.headers.len(), 2);
}

#[test]
fn body_length_from_content_length() {
    let mut head = RequestHead::from_request_line("POST /x HTTP/1.1\r\n").ok().unwrap();
    assert_eq!(head.body_length(), 0);
    head.push_header_line("Content-Length: 5\r\n");
    assert_eq!(head.body_length(), 5);
    head.push_header_line("Content-Length: +7\r\n");
    assert_eq!(head.body_length(), 7);
    head.push_header_line("Content-Length: five\r\n");
    assert_eq!(head.body_length(), 0);
    head.push_header_line("Content-Length: -1\r\n");
    assert_eq!(head.body_length(), 0);
    let req = head.into_request(vec![1, 2]);
    assert_eq!(req.body, vec![1, 2]);
    assert_eq!(req.method, "POST");
}

fn request(version: &str, connection: Option<&str>) -> HttpRequest {
    let mut headers = Headers::new();
    if let Some(c) = connection {
        headers.insert("connection".to_string(), c.to_string());
    }
    HttpRequest {
        method: "GET".to_string(),
        path: "/".to_string(),
        version: version.to_string(),
        headers,
        body: Vec::new(),
    }
}

#[test]
fn keep_alive_rules() {
    assert!(request("HTTP/1.1", None).should_keep_alive());
    assert!(!request("HTTP/1.0", None).should_keep_alive());
    assert!(request("HTTP/1.0", Some("Keep-Alive")).should_keep_alive());
    assert!(request("HTTP/1.1", Some("KEEP-ALIVE")).should_keep_alive());
    assert!(!request("HTTP/1.1", Some("close")).should_keep_alive());
}

#[test]
fn response_clone_is_equal() {
    let r = HttpResponse::not_found();
    let c = r.clone();
    assert_eq!(c.status_code, 404);
    assert_eq!(c.headers_bytes(), r.headers_bytes());
    assert_eq!(body_bytes(&c), body_bytes(&r));
}

#[test]
fn connection_header_in_any_letter_case() {
    let mut head = RequestHead::from_request_line("GET / HTTP/1.0\r\n").ok().unwrap();
    assert!(!head.push_header_line("CoNNecTION: kEEp-aLiVe\r\n"));
    assert!(head.push_header_line("\r\n"));
    let req = head.into_request(Vec::new());
    assert!(req.should_keep_alive());

    let mut head = RequestHead::from_request_line("GET / HTTP/1.1\r\n").ok().unwrap();
    head.push_header_line("CONNECTION: Close\r\n");
    assert!(!head.into_request(Vec::new()).should_keep_alive());
}

#[test]
fn content_length_agrees_after_other_headers() {
    let mut r = HttpResponse::ok();
    r.set_body_bytes(b"hello world");
    r.insert_header("Content-Type".to_string(), "text/plain".to_string());
    r.insert_header("X-Extra".to_string(), "1".to_string());
    assert_eq!(header(&r, "Content-Length"), Some("11"));
    assert_eq!(r.body.as_ref().unwrap().len(), 11);
    r.set_body_file(FileData { data: vec![0u8; 3], mime_type: "image/png".to_string() });
    r.insert_header("Connection".to_string(), "close".to_string());
    assert_eq!(header(&r, "Content-Length"), Some("3"));
    assert_eq!(r.body.as_ref().unwrap().len(), 3);
}
