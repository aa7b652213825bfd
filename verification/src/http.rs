//! HTTP requests and responses: reading a request head line by line,
//! building responses and rendering a response head.

use vstd::prelude::*;
use vstd::utf8::encode_utf8;

use crate::headers::{insert_entry, lookup, HeaderView, Headers};
use crate::text::{
    ascii_lowercase, chars_of, decimal, is_ascii_text, decimal_chars, find_char, index_of, lowercase, parse_unsigned,
    parse_unsigned_chars, push_all, push_text, slice_of, split_words, string_from, to_lowercase,
    trim, trim_chars, utf8_bytes, copy_bytes, words,
};

verus! {

// ---------------------------------------------------------------------------
// Plain views
// ---------------------------------------------------------------------------

/// A response body as plain values.
pub enum BodyView {
    Bytes(Seq<u8>),
    File(Seq<u8>, Seq<char>),
}

/// A response as plain values.
pub struct ResponseView {
    pub status_code: u16,
    pub status_text: Seq<char>,
    pub headers: Seq<HeaderView>,
    pub body: Option<BodyView>,
}

/// The length of a body.
pub open spec fn body_len(b: BodyView) -> nat {
    match b {
        BodyView::Bytes(d) => d.len(),
        BodyView::File(d, _) => d.len(),
    }
}

/// The reason phrase that the server attaches to a status code.
pub open spec fn status_reason(code: u16) -> Seq<char> {
    if code == 200 {
        "OK"@
    } else if code == 400 {
        "Not Found"@
    } else if code == 405 {
        "Method Not Allowed"@
    } else if code == 500 {
        "Internal Server Error"@
    } else {
        "Unknown"@
    }
}

/// The headers every new response starts with.
pub open spec fn base_headers() -> Seq<HeaderView> {
    insert_entry(
        insert_entry(Seq::empty(), "Server"@, "Apaseh/1.0"@),
        "Connection"@,
        "keep-alive"@,
    )
}

/// A fresh response with status `code` and no body.
pub open spec fn new_response(code: u16) -> ResponseView {
    ResponseView {
        status_code: code,
        status_text: status_reason(code),
        headers: base_headers(),
        body: None,
    }
}

/// `r` with one more header stored.
pub open spec fn with_header(r: ResponseView, k: Seq<char>, v: Seq<char>) -> ResponseView {
    ResponseView { headers: insert_entry(r.headers, k, v), ..r }
}

/// `r` with a byte body and its `Content-Length`.
pub open spec fn with_body_bytes(r: ResponseView, data: Seq<u8>) -> ResponseView {
    ResponseView {
        headers: insert_entry(r.headers, "Content-Length"@, decimal(data.len())),
        body: Some(BodyView::Bytes(data)),
        ..r
    }
}

/// `r` with a file body, its `Content-Length` and its `Content-Type`.
pub open spec fn with_body_file(r: ResponseView, data: Seq<u8>, mime: Seq<char>) -> ResponseView {
    ResponseView {
        headers: insert_entry(
            insert_entry(r.headers, "Content-Length"@, decimal(data.len())),
            "Content-Type"@,
            mime,
        ),
        body: Some(BodyView::File(data, mime)),
        ..r
    }
}

/// A plain-text response with status `code` whose body is `message`.
pub open spec fn text_response(code: u16, message: Seq<char>) -> ResponseView {
    with_header(
        with_body_bytes(new_response(code), encode_utf8(message)),
        "Content-Type"@,
        "text/plain"@,
    )
}

/// The `name: value` lines of the headers, in order.
pub open spec fn header_lines(h: Seq<HeaderView>) -> Seq<char>
    decreases h.len(),
{
    if h.len() == 0 {
        Seq::empty()
    } else {
        header_lines(h.drop_last()) + h.last().0 + ": "@ + h.last().1 + "\r\n"@
    }
}

/// The head of a response: status line, header lines, blank line.
pub open spec fn head_text(r: ResponseView) -> Seq<char> {
    "HTTP/1.1 "@ + decimal(r.status_code as nat) + " "@ + r.status_text + "\r\n"@ + header_lines(
        r.headers,
    ) + "\r\n"@
}

// ---------------------------------------------------------------------------
// Requests
// ---------------------------------------------------------------------------

/// A parsed HTTP request.
pub struct HttpRequest {
    pub method: String,
    pub path: String,
    pub version: String,
    pub headers: Headers,
    pub body: Vec<u8>,
}

/// Why a request head was refused.
#[derive(Debug, PartialEq, Eq, Structural)]
pub enum RequestError {
    /// The connection ended before a request line.
    EmptyRequestLine,
    /// The request line does not hold exactly method, path and version.
    InvalidRequestLine,
}

/// The request line and the headers read so far.
pub struct RequestHead {
    pub method: String,
    pub path: String,
    pub version: String,
    pub headers: Headers,
}

/// What storing a header line does to the headers: a line with a colon
/// stores its trimmed, lowercased name and its trimmed value; others change nothing.
pub open spec fn header_line_effect(h: Seq<HeaderView>, line: Seq<char>) -> Seq<HeaderView> {
    let t = trim(line);
    match index_of(t, ':') {
        Some(p) => insert_entry(
            h,
            lowercase(trim(t.subrange(0, p))),
            trim(t.subrange(p + 1, t.len() as int)),
        ),
        None => h,
    }
}

/// The body length that a `content-length` header announces; 0 when the
/// header is missing or not a number.
pub open spec fn announced_length(h: Seq<HeaderView>) -> nat {
    match lookup(h, "content-length"@) {
        Some(v) => match parse_unsigned(v, usize::MAX as nat) {
            Some(n) => n,
            None => 0,
        },
        None => 0,
    }
}

/// Whether a connection stays open after a request with these headers and version.
pub open spec fn keeps_alive(h: Seq<HeaderView>, version: Seq<char>) -> bool {
    match lookup(h, "connection"@) {
        Some(c) => lowercase(c) == "keep-alive"@,
        None => version == "HTTP/1.1"@,
    }
}

impl RequestHead {
    /// Parses the first line of a request, as read including its line end.
    pub fn from_request_line(line: &str) -> (r: Result<RequestHead, RequestError>)
        ensures
            line@.len() == 0 ==> r == Err::<RequestHead, RequestError>(
                RequestError::EmptyRequestLine,
            ),
            line@.len() != 0 && words(trim(line@)).len() != 3 ==> r == Err::<
                RequestHead,
                RequestError,
            >(RequestError::InvalidRequestLine),
            line@.len() != 0 && words(trim(line@)).len() == 3 ==> (r matches Ok(h) && {
                &&& h.method@ == words(trim(line@))[0]
                &&& h.path@ == words(trim(line@))[1]
                &&& h.version@ == words(trim(line@))[2]
                &&& h.headers@ == Seq::<HeaderView>::empty()
            }),
    {
        let chars = chars_of(line);
        if chars.len() == 0 {
            return Err(RequestError::EmptyRequestLine);
        }
        let t = trim_chars(&chars);
        let parts = split_words(&t);
        if parts.len() != 3 {
            return Err(RequestError::InvalidRequestLine);
        }
        assert(parts@[0]@ == words(trim(line@))[0]);
        assert(parts@[1]@ == words(trim(line@))[1]);
        assert(parts@[2]@ == words(trim(line@))[2]);
        Ok(
            RequestHead {
                method: string_from(&parts[0]),
                path: string_from(&parts[1]),
                version: string_from(&parts[2]),
                headers: Headers::new(),
            },
        )
    }

    /// Takes one header line, as read including its line end. Returns `true`
    /// when the line is blank, which ends the head; then nothing changes.
    pub fn push_header_line(&mut self, line: &str) -> (done: bool)
        ensures
            done == (trim(line@).len() == 0),
            final(self).method == old(self).method,
            final(self).path == old(self).path,
            final(self).version == old(self).version,
            final(self).headers@ == header_line_effect(old(self).headers@, line@),
            match index_of(trim(line@), ':') {
                Some(p) => is_ascii_text(trim(trim(line@).subrange(0, p))) ==> final(self).headers@
                    == insert_entry(
                    old(self).headers@,
                    ascii_lowercase(trim(trim(line@).subrange(0, p))),
                    trim(trim(line@).subrange(p + 1, trim(line@).len() as int)),
                ),
                None => true,
            },
    {
        let chars = chars_of(line);
        let t = trim_chars(&chars);
        if t.len() == 0 {
            assert(index_of(trim(line@), ':') is None) by {
                assert(!exists|i: int| crate::text::is_first_index(trim(line@), ':', i));
            }
            return true;
        }
        match find_char(&t, ':') {
            Some(p) => {
                let raw_key = slice_of(&t, 0, p);
                let key_chars = trim_chars(&raw_key);
                let key_text = string_from(&key_chars);
                let key = to_lowercase(key_text.as_str());
                let raw_value = slice_of(&t, p + 1, t.len());
                let value_chars = trim_chars(&raw_value);
                let value = string_from(&value_chars);
                self.headers.insert(key, value);
            },
            None => {},
        }
        false
    }

    /// The number of body bytes that the `content-length` header announces.
    pub fn body_length(&self) -> (n: usize)
        ensures
            n == announced_length(self.headers@),
    {
        match self.headers.get("content-length") {
            Some(v) => {
                let chars = chars_of(v.as_str());
                match parse_unsigned_chars(&chars, usize::MAX as u64) {
                    Some(n) => n as usize,
                    None => 0,
                }
            },
            None => 0,
        }
    }

    /// The complete request with its body.
    pub fn into_request(self, body: Vec<u8>) -> (r: HttpRequest)
        ensures
            r.method == self.method,
            r.path == self.path,
            r.version == self.version,
            r.headers == self.headers,
            r.body == body,
    {
        HttpRequest {
            method: self.method,
            path: self.path,
            version: self.version,
            headers: self.headers,
            body,
        }
    }
}

impl HttpRequest {
    /// Whether the connection stays open after this request: as the
    /// `connection` header says (case-insensitively `keep-alive`), and by
    /// default for HTTP/1.1.
    pub fn should_keep_alive(&self) -> (b: bool)
        ensures
            b == keeps_alive(self.headers@, self.version@),
            match lookup(self.headers@, "connection"@) {
                Some(c) => is_ascii_text(c) ==> b == (ascii_lowercase(c) == "keep-alive"@),
                None => true,
            },
    {
        match self.headers.get("connection") {
            Some(connection) => {
                let lower = to_lowercase(connection.as_str());
                let lc = chars_of(lower.as_str());
                crate::text::chars_eq_str(&lc, "keep-alive")
            },
            None => {
                let vc = chars_of(self.version.as_str());
                crate::text::chars_eq_str(&vc, "HTTP/1.1")
            },
        }
    }
}

// ---------------------------------------------------------------------------
// Responses
// ---------------------------------------------------------------------------

/// The contents of a served file.
pub struct FileData {
    pub data: Vec<u8>,
    pub mime_type: String,
}

/// A response body.
pub enum ResponseBody {
    Bytes(Vec<u8>),
    File(FileData),
}

/// A response.
pub struct HttpResponse {
    pub status_code: u16,
    pub status_text: String,
    pub headers: Headers,
    pub body: Option<ResponseBody>,
}

impl View for ResponseBody {
    type V = BodyView;

    open spec fn view(&self) -> BodyView {
        match self {
            ResponseBody::Bytes(d) => BodyView::Bytes(d@),
            ResponseBody::File(f) => BodyView::File(f.data@, f.mime_type@),
        }
    }
}

/// The plain view of an optional body.
pub open spec fn opt_body_view(b: Option<ResponseBody>) -> Option<BodyView> {
    match b {
        Some(x) => Some(x@),
        None => None,
    }
}

impl View for HttpResponse {
    type V = ResponseView;

    open spec fn view(&self) -> ResponseView {
        ResponseView {
            status_code: self.status_code,
            status_text: self.status_text@,
            headers: self.headers@,
            body: opt_body_view(self.body),
        }
    }
}

impl Clone for FileData {
    fn clone(&self) -> (r: Self)
        ensures
            r.data@ == self.data@,
            r.mime_type@ == self.mime_type@,
    {
        FileData { data: copy_bytes(self.data.as_slice()), mime_type: self.mime_type.clone() }
    }
}

impl Clone for ResponseBody {
    fn clone(&self) -> (r: Self)
        ensures
            r@ == self@,
    {
        match self {
            ResponseBody::Bytes(d) => ResponseBody::Bytes(copy_bytes(d.as_slice())),
            ResponseBody::File(f) => ResponseBody::File(f.clone()),
        }
    }
}

impl Clone for HttpResponse {
    fn clone(&self) -> (r: Self)
        ensures
            r@ == self@,
    {
        let body = match &self.body {
            Some(b) => Some(b.clone()),
            None => None,
        };
        HttpResponse {
            status_code: self.status_code,
            status_text: self.status_text.clone(),
            headers: self.headers.clone(),
            body,
        }
    }
}

impl ResponseBody {
    /// The number of body bytes.
    pub fn len(&self) -> (n: usize)
        ensures
            n == body_len(self@),
    {
        match self {
            ResponseBody::Bytes(data) => data.len(),
            ResponseBody::File(file_data) => file_data.data.len(),
        }
    }
}

impl HttpResponse {
    /// The reason phrase for a status code.
    pub fn status_text(code: u16) -> (s: String)
        ensures
            s@ == status_reason(code),
    {
        if code == 200 {
            "OK".to_owned()
        } else if code == 400 {
            "Not Found".to_owned()
        } else if code == 405 {
            "Method Not Allowed".to_owned()
        } else if code == 500 {
            "Internal Server Error".to_owned()
        } else {
            "Unknown".to_owned()
        }
    }

    /// A response with status `code`, the server's standard headers and no body.
    pub fn new(status_code: u16) -> (r: Self)
        ensures
            r@ == new_response(status_code),
    {
        let status_text = Self::status_text(status_code);
        let mut headers = Headers::new();
        headers.insert("Server".to_owned(), "Apaseh/1.0".to_owned());
        headers.insert("Connection".to_owned(), "keep-alive".to_owned());
        HttpResponse { status_code, status_text, headers, body: None }
    }

    /// `200 OK` with no body.
    pub fn ok() -> (r: Self)
        ensures
            r@ == new_response(200),
    {
        Self::new(200)
    }

    /// Stores a header.
    pub fn insert_header(&mut self, key: String, value: String)
        ensures
            final(self)@ == with_header(old(self)@, key@, value@),
    {
        self.headers.insert(key, value);
    }

    /// Sets a byte body and its `Content-Length`.
    pub fn set_body_bytes(&mut self, data: &[u8])
        ensures
            final(self)@ == with_body_bytes(old(self)@, data@),
    {
        self.body = Some(ResponseBody::Bytes(copy_bytes(data)));
        let len = decimal_chars(data.len() as u64);
        self.headers.insert("Content-Length".to_owned(), string_from(&len));
    }

    /// A plain-text response with status `code` whose body is `message`.
    pub fn text(status_code: u16, message: &str) -> (r: Self)
        ensures
            r@ == text_response(status_code, message@),
    {
        let mut response = Self::new(status_code);
        let bytes = utf8_bytes(message);
        response.set_body_bytes(bytes.as_slice());
        response.insert_header("Content-Type".to_owned(), "text/plain".to_owned());
        response
    }

    /// `404` with a plain-text body.
    pub fn not_found() -> (r: Self)
        ensures
            r@ == text_response(404, "404 not found"@),
    {
        Self::text(404, "404 not found")
    }

    /// `405` with a plain-text body.
    pub fn method_not_allowed() -> (r: Self)
        ensures
            r@ == text_response(405, "405 method not allowed"@),
    {
        Self::text(405, "405 method not allowed")
    }

    /// Sets a file body with its `Content-Length` and `Content-Type`.
    pub fn set_body_file(&mut self, file_data: FileData)
        ensures
            final(self)@ == with_body_file(old(self)@, file_data.data@, file_data.mime_type@),
    {
        let len = decimal_chars(file_data.data.len() as u64);
        self.headers.insert("Content-Length".to_owned(), string_from(&len));
        self.headers.insert("Content-Type".to_owned(), file_data.mime_type.clone());
        self.body = Some(ResponseBody::File(file_data));
    }

    /// The head of the response as UTF-8 bytes: status line, one line per
    /// header in order, and a blank line.
    pub fn headers_bytes(&self) -> (b: Vec<u8>)
        ensures
            b@ == encode_utf8(head_text(self@)),
    {
        let mut text = "HTTP/1.1 ".to_owned();
        let code = decimal_chars(self.status_code as u64);
        push_all(&mut text, &code);
        push_text(&mut text, " ");
        push_text(&mut text, self.status_text.as_str());
        push_text(&mut text, "\r\n");
        let ghost start = text@;
        let n = self.headers.len();
        let mut i: usize = 0;
        while i < n
            invariant
                n == self.headers@.len(),
                i <= n,
                text@ == start + header_lines(self.headers@.subrange(0, i as int)),
            decreases n - i,
        {
            let ghost before = text@;
            push_text(&mut text, self.headers.name_at(i).as_str());
            push_text(&mut text, ": ");
            push_text(&mut text, self.headers.value_at(i).as_str());
            push_text(&mut text, "\r\n");
            let ghost h = self.headers@.subrange(0, i + 1);
            assert(h.drop_last() =~= self.headers@.subrange(0, i as int));
            assert(text@ =~= start + header_lines(h));
            i = i + 1;
        }
        assert(self.headers@.subrange(0, n as int) =~= self.headers@);
        push_text(&mut text, "\r\n");
        assert(text@ =~= head_text(self@));
        utf8_bytes(text.as_str())
    }
}


// ---------------------------------------------------------------------------
// Laws
// ---------------------------------------------------------------------------

/// After a byte body is set, `Content-Length` holds the body's length in
/// decimal and the body is those bytes.
pub proof fn lemma_body_bytes_length(r: ResponseView, data: Seq<u8>)
    ensures
        lookup(with_body_bytes(r, data).headers, "Content-Length"@) == Some(decimal(data.len())),
        with_body_bytes(r, data).body == Some(BodyView::Bytes(data)),
{
    crate::headers::lemma_lookup_after_insert(r.headers, "Content-Length"@, decimal(data.len()));
}

/// After a file body is set, `Content-Length` holds the file's length in
/// decimal and `Content-Type` its MIME type.
pub proof fn lemma_body_file_headers(r: ResponseView, data: Seq<u8>, mime: Seq<char>)
    ensures
        lookup(with_body_file(r, data, mime).headers, "Content-Length"@) == Some(
            decimal(data.len()),
        ),
        lookup(with_body_file(r, data, mime).headers, "Content-Type"@) == Some(mime),
{
    let h1 = insert_entry(r.headers, "Content-Length"@, decimal(data.len()));
    crate::headers::lemma_lookup_after_insert(r.headers, "Content-Length"@, decimal(data.len()));
    reveal_strlit("Content-Length");
    reveal_strlit("Content-Type");
    assert("Content-Length"@.len() != "Content-Type"@.len());
    crate::headers::lemma_lookup_other_after_insert(h1, "Content-Type"@, mime, "Content-Length"@);
    crate::headers::lemma_lookup_after_insert(h1, "Content-Type"@, mime);
}

/// A `content-length` header holding the decimal rendering of `n` announces
/// exactly `n` body bytes.
pub proof fn lemma_announced_rendered_length(h: Seq<HeaderView>, n: nat)
    requires
        lookup(h, "content-length"@) == Some(decimal(n)),
        n <= usize::MAX,
    ensures
        announced_length(h) == n,
{
    crate::text::lemma_parse_decimal(n, usize::MAX as nat);
}

/// A body is set and `Content-Length` holds its length in decimal.
pub open spec fn length_agrees(r: ResponseView) -> bool {
    match r.body {
        Some(b) => lookup(r.headers, "Content-Length"@) == Some(decimal(body_len(b))),
        None => false,
    }
}

/// Setting a byte body or a file body makes `Content-Length` agree with the
/// body's length, and storing any header other than `Content-Length` keeps
/// that agreement: it holds after every series of such calls that ends with
/// the last body set.
pub proof fn lemma_length_agrees(
    r: ResponseView,
    data: Seq<u8>,
    mime: Seq<char>,
    name: Seq<char>,
    value: Seq<char>,
)
    ensures
        length_agrees(with_body_bytes(r, data)),
        length_agrees(with_body_file(r, data, mime)),
        length_agrees(r) && name != "Content-Length"@ ==> length_agrees(with_header(r, name, value)),
{
    lemma_body_bytes_length(r, data);
    lemma_body_file_headers(r, data, mime);
    if name != "Content-Length"@ {
        crate::headers::lemma_lookup_other_after_insert(r.headers, name, value, "Content-Length"@);
    }
}

} // verus!
