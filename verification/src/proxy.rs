//! The reverse proxy: choosing a rule for a path, rewriting the path,
//! building the request sent to the backend, and reading its response.

use vstd::prelude::*;
use vstd::utf8::{decode_utf8, encode_scalar, encode_utf8, valid_utf8};

use crate::headers::{insert_entry, lookup, HeaderView, Headers};
use crate::http::{
    head_text, header_lines,
    base_headers, new_response, text_response, BodyView, HttpRequest, HttpResponse,
    ResponseBody, ResponseView,
};
use crate::text::{
    chars_eq, chars_eq_str, chars_of, decimal, decimal_chars, ends_with, find_char, has_prefix,
    index_of, lines, lowercase, parse_unsigned, parse_unsigned_chars, push_all, push_text,
    slice_of, split_lines, split_words, starts_with, string_from, to_lowercase, trim, trim_chars,
    utf8_bytes, views_of, words, words_from, from_utf8_lossy, utf8_lossy, split_from, strip_cr,
    is_white,
};

verus! {

// ---------------------------------------------------------------------------
// Rules
// ---------------------------------------------------------------------------

/// A proxy rule as plain values.
pub struct RuleView {
    pub path_prefix: Seq<char>,
    pub backend_url: Seq<char>,
    pub strip_prefix: bool,
    pub headers: Seq<HeaderView>,
}

/// Requests whose path falls under `path_prefix` go to `backend_url`.
pub struct ProxyRule {
    pub path_prefix: String,
    pub backend_url: String,
    pub strip_prefix: bool,
    pub headers: Headers,
}

impl View for ProxyRule {
    type V = RuleView;

    open spec fn view(&self) -> RuleView {
        RuleView {
            path_prefix: self.path_prefix@,
            backend_url: self.backend_url@,
            strip_prefix: self.strip_prefix,
            headers: self.headers@,
        }
    }
}

impl Clone for ProxyRule {
    fn clone(&self) -> (r: Self)
        ensures
            r@ == self@,
    {
        ProxyRule {
            path_prefix: self.path_prefix.clone(),
            backend_url: self.backend_url.clone(),
            strip_prefix: self.strip_prefix,
            headers: self.headers.clone(),
        }
    }
}

/// The plain views of a list of rules.
pub open spec fn rules_view(rules: Seq<ProxyRule>) -> Seq<RuleView> {
    rules.map_values(|r: ProxyRule| r@)
}

/// `prefix` ends with a slash.
pub open spec fn ends_in_slash(prefix: Seq<char>) -> bool {
    prefix.len() > 0 && prefix.last() == '/'
}

/// A rule with this prefix applies to `path`: a prefix ending in `/`
/// matches itself without the slash and every path that starts with it;
/// another prefix matches itself and every path that starts with it and a slash.
pub open spec fn prefix_matches(prefix: Seq<char>, path: Seq<char>) -> bool {
    if ends_in_slash(prefix) {
        path == prefix.drop_last() || has_prefix(path, prefix)
    } else {
        path == prefix || has_prefix(path, prefix.push('/'))
    }
}

/// The first rule at position `i` or later that applies to `path`.
pub open spec fn first_match_from(rules: Seq<RuleView>, path: Seq<char>, i: int) -> Option<int>
    decreases rules.len() - i,
{
    if i < 0 || i >= rules.len() {
        None
    } else if prefix_matches(rules[i].path_prefix, path) {
        Some(i)
    } else {
        first_match_from(rules, path, i + 1)
    }
}

/// A match found from position `k` lies at or after `k` and within the rules.
pub proof fn lemma_first_match_in_range(rules: Seq<RuleView>, path: Seq<char>, k: int)
    ensures
        first_match_from(rules, path, k) matches Some(i) ==> k <= i < rules.len(),
    decreases rules.len() - k,
{
    if 0 <= k < rules.len() && !prefix_matches(rules[k].path_prefix, path) {
        lemma_first_match_in_range(rules, path, k + 1);
    }
}

/// The first rule that applies to `path`.
pub open spec fn first_match(rules: Seq<RuleView>, path: Seq<char>) -> Option<int> {
    first_match_from(rules, path, 0)
}

/// The prefix that stripping removes: the rule's prefix without a final slash.
pub open spec fn strip_target(prefix: Seq<char>) -> Seq<char> {
    if ends_in_slash(prefix) {
        prefix.drop_last()
    } else {
        prefix
    }
}

/// The path as the rule rewrites it, before a leading slash is ensured.
pub open spec fn proxied_path(path: Seq<char>, rule: RuleView) -> Seq<char> {
    if rule.strip_prefix {
        let p = strip_target(rule.path_prefix);
        if path == p {
            "/"@
        } else if has_prefix(path, p.push('/')) {
            path.subrange(p.len() as int, path.len() as int)
        } else {
            path
        }
    } else {
        path
    }
}

/// The path requested from the backend: the rewritten path, starting with a slash.
pub open spec fn backend_path(path: Seq<char>, rule: RuleView) -> Seq<char> {
    let p = proxied_path(path, rule);
    if p.len() > 0 && p[0] == '/' {
        p
    } else {
        seq!['/'] + p
    }
}

// ---------------------------------------------------------------------------
// The request sent to the backend
// ---------------------------------------------------------------------------

/// One header line.
pub open spec fn header_line(name: Seq<char>, value: Seq<char>) -> Seq<char> {
    name + ": "@ + value + "\r\n"@
}

/// Forwards the client's headers in order, skipping any whose lowercased
/// name was already sent or is `connection`; `acc` is the text so far and
/// the lowercased names sent so far.
pub open spec fn forward_client_headers(
    h: Seq<HeaderView>,
    acc: (Seq<char>, Seq<Seq<char>>),
) -> (Seq<char>, Seq<Seq<char>>)
    decreases h.len(),
{
    if h.len() == 0 {
        acc
    } else {
        let kl = lowercase(h[0].0);
        let next = if !acc.1.contains(kl) && kl != "connection"@ {
            (acc.0 + header_line(h[0].0, h[0].1), acc.1.push(kl))
        } else {
            acc
        };
        forward_client_headers(h.drop_first(), next)
    }
}

/// Adds the rule's headers in order, skipping any whose lowercased name is in `sent`.
pub open spec fn forward_rule_headers(
    h: Seq<HeaderView>,
    text: Seq<char>,
    sent: Seq<Seq<char>>,
) -> Seq<char>
    decreases h.len(),
{
    if h.len() == 0 {
        text
    } else {
        let kl = lowercase(h[0].0);
        let next = if !sent.contains(kl) {
            text + header_line(h[0].0, h[0].1)
        } else {
            text
        };
        forward_rule_headers(h.drop_first(), next, sent)
    }
}

/// The head of the request sent to the backend.
pub open spec fn forward_head(
    method: Seq<char>,
    path: Seq<char>,
    host: Seq<char>,
    client: Seq<HeaderView>,
    rule: Seq<HeaderView>,
) -> Seq<char> {
    let t0 = method + " "@ + path + " HTTP/1.1\r\n"@ + header_line("Host"@, host);
    let t1 = match lookup(client, "host"@) {
        Some(h) => t0 + header_line("X-Forwarded-Host"@, h),
        None => t0,
    };
    let t2 = match lookup(client, "x-forwarded-for"@) {
        Some(e) => t1 + header_line("X-Forwarded-For"@, e + ", proxy"@),
        None => t1 + header_line("X-Forwarded-For"@, "proxy"@),
    };
    let t3 = t2 + header_line("X-Forwarded-Proto"@, "http"@);
    let done = forward_client_headers(client, (t3, seq!["host"@]));
    forward_rule_headers(rule, done.0, done.1) + header_line("Connection"@, "close"@) + "\r\n"@
}

/// The backend host: the URL's host, or `localhost`.
pub open spec fn endpoint_host(h: Option<Seq<char>>) -> Seq<char> {
    match h {
        Some(x) => x,
        None => "localhost"@,
    }
}

/// The backend port: the URL's explicit port, or 80.
pub open spec fn endpoint_port(p: Option<u16>) -> u16 {
    match p {
        Some(x) => x,
        None => 80,
    }
}

/// The plain view of an optional string.
pub open spec fn opt_text(s: Option<String>) -> Option<Seq<char>> {
    match s {
        Some(x) => Some(x@),
        None => None,
    }
}

// ---------------------------------------------------------------------------
// The backend's response
// ---------------------------------------------------------------------------

/// Reads the backend's header lines in order: each line with a colon stores
/// its trimmed, lowercased name and trimmed value, and a `content-length`
/// line sets the announced length (or clears it when not a number).
pub open spec fn backend_headers_from(
    ls: Seq<Seq<char>>,
    h: Seq<HeaderView>,
    cl: Option<nat>,
) -> (Seq<HeaderView>, Option<nat>)
    decreases ls.len(),
{
    if ls.len() == 0 {
        (h, cl)
    } else {
        let line = ls[0];
        let next = match index_of(line, ':') {
            Some(p) => {
                let k = lowercase(trim(line.subrange(0, p)));
                let v = trim(line.subrange(p + 1, line.len() as int));
                (
                    insert_entry(h, k, v),
                    if k == "content-length"@ {
                        parse_unsigned(v, usize::MAX as nat)
                    } else {
                        cl
                    },
                )
            },
            None => (h, cl),
        };
        backend_headers_from(ls.drop_first(), next.0, next.1)
    }
}

/// What the head text of a backend response gives: status code, headers
/// and announced body length, or why it is refused.
pub open spec fn backend_head(text: Seq<char>) -> Result<
    (u16, Seq<HeaderView>, Option<nat>),
    ProxyError,
> {
    let ls = lines(text);
    if ls.len() == 0 {
        Err(ProxyError::NoStatusLine)
    } else {
        let parts = words(ls[0]);
        if parts.len() < 2 {
            Err(ProxyError::NoStatusCode)
        } else {
            match parse_unsigned(parts[1], 65535) {
                None => Err(ProxyError::InvalidStatusCode),
                Some(code) => {
                    let r = backend_headers_from(ls.drop_first(), Seq::empty(), None);
                    Ok((code as u16, r.0, r.1))
                },
            }
        }
    }
}

/// `i` starts a blank line ending the head: the bytes `\r\n\r\n`.
pub open spec fn is_head_end_at(b: Seq<u8>, i: int) -> bool {
    &&& 0 <= i && i + 4 <= b.len()
    &&& b[i] == 13 && b[i + 1] == 10 && b[i + 2] == 13 && b[i + 3] == 10
}

/// The first position of `\r\n\r\n` in `b`.
pub open spec fn head_end_from(b: Seq<u8>, i: int) -> Option<int>
    decreases b.len() - i,
{
    if i < 0 || i + 4 > b.len() {
        None
    } else if is_head_end_at(b, i) {
        Some(i)
    } else {
        head_end_from(b, i + 1)
    }
}

/// The response built from a backend's status, headers and body: the
/// server's fresh response for that status with the backend's headers in
/// place of its own, and the body when it is not empty.
pub open spec fn backend_response(code: u16, h: Seq<HeaderView>, body: Seq<u8>) -> ResponseView {
    ResponseView {
        headers: h,
        body: if body.len() > 0 {
            Some(BodyView::Bytes(body))
        } else {
            None
        },
        ..new_response(code)
    }
}

/// What reading a backend's head from `buffer`, whose head text is `text`
/// and whose blank line starts at `e`, gives: the parsed status, headers and
/// announced length with the bytes after the blank line as the start of the
/// body, or the reason the head is refused.
pub open spec fn head_read(
    text: Seq<char>,
    buffer: Seq<u8>,
    e: int,
    r: Result<BackendHead, ProxyError>,
) -> bool {
    match backend_head(text) {
        Ok(v) => r is Ok && {
            let h = r->Ok_0;
            &&& h.status_code == v.0
            &&& h.headers@ == v.1
            &&& match v.2 {
                Some(n) => h.content_length == Some(n as usize),
                None => h.content_length is None,
            }
            &&& h.initial_body@ == if e + 4 < buffer.len() {
                buffer.subrange(e + 4, buffer.len() as int)
            } else {
                Seq::empty()
            }
        },
        Err(err) => r is Err && r->Err_0 == err,
    }
}

// ---------------------------------------------------------------------------
// Types
// ---------------------------------------------------------------------------

/// Why proxying a request failed before or while reading the backend's answer.
#[derive(Debug, PartialEq, Eq, Structural)]
pub enum ProxyError {
    /// The rule's backend URL does not parse.
    InvalidBackendUrl,
    /// The backend closed the connection before a blank line ended its head.
    NoHeadersEnd,
    /// The backend's head has no status line.
    NoStatusLine,
    /// The backend's status line has no status code.
    NoStatusCode,
    /// The backend's status code is not a number from 0 to 65535.
    InvalidStatusCode,
}

/// What happened when a request was proxied.
pub enum ProxyOutcome {
    /// Connecting to the backend failed.
    ConnectFailed,
    /// Connecting to the backend took longer than the timeout.
    ConnectTimedOut,
    /// Sending the request to the backend failed.
    ForwardFailed,
    /// The backend answered.
    Received(HttpResponse),
    /// Reading the backend's answer failed.
    ReadFailed,
    /// Reading the backend's answer took longer than the timeout.
    ReadTimedOut,
}

/// Where to connect and what to send for a proxied request.
pub struct ForwardPlan {
    /// `host:port` of the backend.
    pub address: String,
    /// The complete request for the backend.
    pub request_bytes: Vec<u8>,
}

/// The head of a backend's response and the body bytes read along with it.
pub struct BackendHead {
    pub status_code: u16,
    pub headers: Headers,
    pub content_length: Option<usize>,
    pub initial_body: Vec<u8>,
}

/// Proxy rules and the timeout for backend connections.
pub struct ReverseProxy {
    pub rules: Vec<ProxyRule>,
    /// Seconds allowed for connecting to a backend and for reading its answer.
    pub timeout_secs: u64,
}

// ---------------------------------------------------------------------------
// Outside calls
// ---------------------------------------------------------------------------

#[verifier::external_type_specification]
#[verifier::external_body]
pub struct ExUrlParseError(url::ParseError);

/// What `url::Url::parse` makes of a URL text, when it parses: the URL's
/// host (`host_str`) and explicit port (`port`).
pub uninterp spec fn url_endpoint(text: Seq<char>) -> Option<(Option<Seq<char>>, Option<u16>)>;

/// Calls `url::Url::parse` and, on success, `host_str` and `port` of the URL.
/// The contract ties the outcome to the name `url_endpoint` of the text; it
/// states nothing more of the URL grammar.
#[verifier::external_body]
fn parse_url_endpoint(text: &str) -> (r: Result<(Option<String>, Option<u16>), url::ParseError>)
    ensures
        match r {
            Ok(e) => url_endpoint(text@) == Some((opt_text(e.0), e.1)),
            Err(_) => url_endpoint(text@) is None,
        },
{
    match url::Url::parse(text) {
        Ok(u) => Ok((u.host_str().map(String::from), u.port())),
        Err(e) => Err(e),
    }
}

// ---------------------------------------------------------------------------
// Functions
// ---------------------------------------------------------------------------

/// Appends the header line `name: value`.
fn push_header_line(text: &mut String, name: &str, value: &str)
    ensures
        final(text)@ == old(text)@ + header_line(name@, value@),
{
    push_text(text, name);
    push_text(text, ": ");
    push_text(text, value);
    push_text(text, "\r\n");
    assert(text@ =~= old(text)@ + header_line(name@, value@));
}

/// Whether `v` holds a string equal to `s`.
fn contains_string(v: &Vec<String>, s: &String) -> (r: bool)
    ensures
        r == v@.map_values(|x: String| x@).contains(s@),
{
    let ghost vv = v@.map_values(|x: String| x@);
    let mut i: usize = 0;
    while i < v.len()
        invariant
            i <= v.len(),
            vv == v@.map_values(|x: String| x@),
            forall|j: int| 0 <= j < i ==> vv[j] != s@,
        decreases v.len() - i,
    {
        if v[i] == *s {
            assert(vv[i as int] == s@);
            return true;
        }
        i = i + 1;
    }
    assert(!vv.contains(s@));
    false
}

impl ReverseProxy {
    /// A proxy with these rules and a 30-second timeout.
    pub fn new(rules: Vec<ProxyRule>) -> (p: Self)
        ensures
            p.rules@ == rules@,
            p.timeout_secs == 30,
    {
        ReverseProxy { rules, timeout_secs: 30 }
    }

    /// The position of the first rule that applies to `path`.
    pub fn find_rule(&self, path: &str) -> (r: Option<usize>)
        ensures
            match r {
                Some(i) => first_match(rules_view(self.rules@), path@) == Some(i as int),
                None => first_match(rules_view(self.rules@), path@) is None,
            },
    {
        let ghost rv = rules_view(self.rules@);
        let pc = chars_of(path);
        let mut i: usize = 0;
        while i < self.rules.len()
            invariant
                i <= self.rules.len(),
                rv == rules_view(self.rules@),
                pc@ == path@,
                first_match(rv, path@) == first_match_from(rv, path@, i as int),
            decreases self.rules.len() - i,
        {
            let rule = &self.rules[i];
            assert(rv[i as int] == rule@);
            if Self::prefix_applies(&rule.path_prefix, &pc) {
                return Some(i);
            }
            i = i + 1;
        }
        None
    }

    /// Whether a rule with `prefix` applies to the path `pc`.
    fn prefix_applies(prefix: &String, pc: &Vec<char>) -> (b: bool)
        ensures
            b == prefix_matches(prefix@, pc@),
    {
        let pre = chars_of(prefix.as_str());
        let n = pre.len();
        if n > 0 && pre[n - 1] == '/' {
            let without = slice_of(&pre, 0, n - 1);
            assert(without@ =~= pre@.drop_last());
            chars_eq(pc, &without) || starts_with(pc, &pre)
        } else {
            let mut with_slash = slice_of(&pre, 0, n);
            with_slash.push('/');
            assert(pre@.subrange(0, n as int) =~= pre@);
            chars_eq(pc, &pre) || starts_with(pc, &with_slash)
        }
    }

    /// The first rule that applies to `path`.
    pub fn should_proxy(&self, path: &str) -> (r: Option<&ProxyRule>)
        ensures
            match first_match(rules_view(self.rules@), path@) {
                Some(i) => r == Some(&self.rules@[i]),
                None => r is None,
            },
    {
        proof {
            lemma_first_match_in_range(rules_view(self.rules@), path@, 0);
        }
        match self.find_rule(path) {
            Some(i) => Some(&self.rules[i]),
            None => None,
        }
    }

    /// The path to request from the backend for `request_path` under `rule`.
    pub fn backend_path(request_path: &str, rule: &ProxyRule) -> (p: String)
        ensures
            p@ == backend_path(request_path@, rule@),
    {
        let path = chars_of(request_path);
        let proxied: Vec<char> = if rule.strip_prefix {
            let pre = chars_of(rule.path_prefix.as_str());
            let n = pre.len();
            let target = if n > 0 && pre[n - 1] == '/' {
                slice_of(&pre, 0, n - 1)
            } else {
                slice_of(&pre, 0, n)
            };
            assert(pre@.subrange(0, n as int) =~= pre@);
            assert(n > 0 ==> pre@.subrange(0, n - 1) =~= pre@.drop_last());
            if chars_eq(&path, &target) {
                chars_of("/")
            } else {
                let mut with_slash = slice_of(&target, 0, target.len());
                with_slash.push('/');
                assert(target@.subrange(0, target@.len() as int) =~= target@);
                if starts_with(&path, &with_slash) {
                    slice_of(&path, target.len(), path.len())
                } else {
                    slice_of(&path, 0, path.len())
                }
            }
        } else {
            slice_of(&path, 0, path.len())
        };
        assert(path@.subrange(0, path@.len() as int) =~= path@);
        if proxied.len() > 0 && proxied[0] == '/' {
            string_from(&proxied)
        } else {
            let mut s = "/".to_owned();
            proof {
                reveal_strlit("/");
            }
            push_all(&mut s, &proxied);
            s
        }
    }

    /// The host and port to connect to, from what the backend URL names.
    pub fn backend_address(host: Option<String>, port: Option<u16>) -> (r: (String, u16))
        ensures
            r.0@ == endpoint_host(opt_text(host)),
            r.1 == endpoint_port(port),
    {
        let h = match host {
            Some(h) => h,
            None => "localhost".to_owned(),
        };
        let p = match port {
            Some(p) => p,
            None => 80,
        };
        (h, p)
    }

    /// The complete request for the backend: request line, `Host`, the
    /// forwarding headers, the client's and the rule's headers, `Connection:
    /// close`, a blank line and the client's body.
    pub fn forward_request_bytes(
        request: &HttpRequest,
        path: &str,
        host: &str,
        rule: &ProxyRule,
    ) -> (b: Vec<u8>)
        ensures
            b@ == encode_utf8(
                forward_head(request.method@, path@, host@, request.headers@, rule.headers@),
            ) + request.body@,
    {
        let mut text = request.method.clone();
        push_text(&mut text, " ");
        push_text(&mut text, path);
        push_text(&mut text, " HTTP/1.1\r\n");
        push_header_line(&mut text, "Host", host);
        let mut sent: Vec<String> = Vec::new();
        sent.push("host".to_owned());
        match request.headers.get("host") {
            Some(original_host) => {
                push_header_line(&mut text, "X-Forwarded-Host", original_host.as_str());
            },
            None => {},
        }
        match request.headers.get("x-forwarded-for") {
            Some(existing) => {
                let mut v = existing.clone();
                push_text(&mut v, ", proxy");
                push_header_line(&mut text, "X-Forwarded-For", v.as_str());
            },
            None => {
                push_header_line(&mut text, "X-Forwarded-For", "proxy");
            },
        }
        push_header_line(&mut text, "X-Forwarded-Proto", "http");
        let ghost client = request.headers@;
        let ghost whole = forward_client_headers(client, (text@, seq!["host"@]));
        assert(sent@.map_values(|x: String| x@) =~= seq!["host"@]);
        let n = request.headers.len();
        let mut i: usize = 0;
        assert(client.skip(0) =~= client);
        while i < n
            invariant
                n == client.len(),
                client == request.headers@,
                i <= n,
                whole == forward_client_headers(
                    client.skip(i as int),
                    (text@, sent@.map_values(|x: String| x@)),
                ),
            decreases n - i,
        {
            assert(client.skip(i as int).drop_first() =~= client.skip(i + 1));
            assert(client.skip(i as int)[0] == client[i as int]);
            let name = request.headers.name_at(i);
            let key_lower = to_lowercase(name.as_str());
            let kc = chars_of(key_lower.as_str());
            if !contains_string(&sent, &key_lower) && !chars_eq_str(&kc, "connection") {
                push_header_line(&mut text, name.as_str(), request.headers.value_at(i).as_str());
                let ghost before = sent@;
                sent.push(key_lower);
                assert(sent@.map_values(|x: String| x@) =~= before.map_values(|x: String| x@).push(
                    lowercase(client[i as int].0),
                ));
            }
            i = i + 1;
        }
        assert(client.skip(n as int) =~= Seq::<HeaderView>::empty());
        let ghost sent_all = sent@.map_values(|x: String| x@);
        let ghost rule_h = rule.headers@;
        let ghost total = forward_rule_headers(rule_h, text@, sent_all);
        let m = rule.headers.len();
        let mut j: usize = 0;
        assert(rule_h.skip(0) =~= rule_h);
        while j < m
            invariant
                m == rule_h.len(),
                rule_h == rule.headers@,
                j <= m,
                sent_all == sent@.map_values(|x: String| x@),
                total == forward_rule_headers(rule_h.skip(j as int), text@, sent_all),
            decreases m - j,
        {
            assert(rule_h.skip(j as int).drop_first() =~= rule_h.skip(j + 1));
            assert(rule_h.skip(j as int)[0] == rule_h[j as int]);
            let name = rule.headers.name_at(j);
            let key_lower = to_lowercase(name.as_str());
            if !contains_string(&sent, &key_lower) {
                push_header_line(&mut text, name.as_str(), rule.headers.value_at(j).as_str());
            }
            j = j + 1;
        }
        assert(rule_h.skip(m as int) =~= Seq::<HeaderView>::empty());
        push_header_line(&mut text, "Connection", "close");
        push_text(&mut text, "\r\n");
        let mut bytes = utf8_bytes(text.as_str());
        let mut k: usize = 0;
        let ghost head = bytes@;
        while k < request.body.len()
            invariant
                k <= request.body.len(),
                bytes@ == head + request.body@.subrange(0, k as int),
            decreases request.body.len() - k,
        {
            bytes.push(request.body[k]);
            assert(request.body@.subrange(0, k + 1) =~= request.body@.subrange(0, k as int).push(
                request.body@[k as int],
            ));
            k = k + 1;
        }
        assert(request.body@.subrange(0, request.body@.len() as int) =~= request.body@);
        bytes
    }

    /// Where to connect and what to send for `request` under `rule`; refused
    /// when the rule's backend URL does not parse.
    pub fn prepare_request(&self, request: &HttpRequest, rule: &ProxyRule) -> (r: Result<
        ForwardPlan,
        ProxyError,
    >)
        ensures
            match url_endpoint(rule.backend_url@) {
                None => r is Err && r->Err_0 == ProxyError::InvalidBackendUrl,
                Some(e) => r is Ok && {
                    let host = endpoint_host(e.0);
                    let port = endpoint_port(e.1);
                    &&& r->Ok_0.address@ == host + ":"@ + decimal(port as nat)
                    &&& r->Ok_0.request_bytes@ == encode_utf8(
                        forward_head(
                            request.method@,
                            backend_path(request.path@, rule@),
                            host,
                            request.headers@,
                            rule.headers@,
                        ),
                    ) + request.body@
                },
            },
    {
        let (host_opt, port_opt) = match parse_url_endpoint(rule.backend_url.as_str()) {
            Ok(e) => e,
            Err(_) => {
                return Err(ProxyError::InvalidBackendUrl);
            },
        };
        let (host, port) = Self::backend_address(host_opt, port_opt);
        let path = Self::backend_path(request.path.as_str(), rule);
        let request_bytes = Self::forward_request_bytes(request, path.as_str(), host.as_str(), rule);
        let mut address = host.clone();
        push_text(&mut address, ":");
        let pd = decimal_chars(port as u64);
        push_all(&mut address, &pd);
        Ok(ForwardPlan { address, request_bytes })
    }

    /// The position of the first `\r\n\r\n` in `buffer`.
    pub fn find_headers_end(&self, buffer: &[u8]) -> (r: Option<usize>)
        ensures
            match r {
                Some(i) => head_end_from(buffer@, 0) == Some(i as int),
                None => head_end_from(buffer@, 0) is None,
            },
    {
        let n = buffer.len();
        let mut i: usize = 0;
        while n >= 4 && i <= n - 4
            invariant
                n == buffer@.len(),
                head_end_from(buffer@, 0) == head_end_from(buffer@, i as int),
            decreases n - i,
        {
            if buffer[i] == 13 && buffer[i + 1] == 10 && buffer[i + 2] == 13 && buffer[i + 3]
                == 10 {
                return Some(i);
            }
            i = i + 1;
        }
        None
    }

    /// Reads the head text of a backend response: status code from the
    /// second word of the first line, then the header lines.
    pub fn parse_backend_head_text(text: &str) -> (r: Result<
        (u16, Headers, Option<usize>),
        ProxyError,
    >)
        ensures
            match backend_head(text@) {
                Ok(v) => r is Ok && r->Ok_0.0 == v.0 && r->Ok_0.1@ == v.1 && match v.2 {
                    Some(n) => r->Ok_0.2 == Some(n as usize),
                    None => r->Ok_0.2 is None,
                },
                Err(e) => r is Err && r->Err_0 == e,
            },
    {
        let chars = chars_of(text);
        let ls = split_lines(&chars);
        if ls.len() == 0 {
            return Err(ProxyError::NoStatusLine);
        }
        let ghost lv = views_of(ls@);
        let parts = split_words(&ls[0]);
        assert(lv[0] == ls@[0]@);
        if parts.len() < 2 {
            return Err(ProxyError::NoStatusCode);
        }
        assert(views_of(parts@)[1] == parts@[1]@);
        let code = match parse_unsigned_chars(&parts[1], 65535) {
            Some(c) => c as u16,
            None => {
                return Err(ProxyError::InvalidStatusCode);
            },
        };
        let mut headers = Headers::new();
        let mut content_length: Option<usize> = None;
        let ghost rest = lv.drop_first();
        let ghost goal = backend_headers_from(rest, Seq::empty(), None);
        let mut i: usize = 1;
        assert(lv.skip(1) =~= rest);
        while i < ls.len()
            invariant
                1 <= i <= ls.len(),
                lv == views_of(ls@),
                rest == lv.drop_first(),
                goal == backend_headers_from(
                    lv.skip(i as int),
                    headers@,
                    match content_length {
                        Some(n) => Some(n as nat),
                        None => None,
                    },
                ),
            decreases ls.len() - i,
        {
            assert(lv.skip(i as int).drop_first() =~= lv.skip(i + 1));
            assert(lv.skip(i as int)[0] == ls@[i as int]@);
            let line = &ls[i];
            match find_char(line, ':') {
                Some(p) => {
                    let raw_key = slice_of(line, 0, p);
                    let key_chars = trim_chars(&raw_key);
                    let key_text = string_from(&key_chars);
                    let key = to_lowercase(key_text.as_str());
                    let raw_value = slice_of(line, p + 1, line.len());
                    let value_chars = trim_chars(&raw_value);
                    let kc = chars_of(key.as_str());
                    if chars_eq_str(&kc, "content-length") {
                        content_length = match parse_unsigned_chars(&value_chars, usize::MAX as u64) {
                            Some(n) => Some(n as usize),
                            None => None,
                        };
                    }
                    headers.insert(key, string_from(&value_chars));
                },
                None => {},
            }
            i = i + 1;
        }
        assert(lv.skip(i as int) =~= Seq::<Seq<char>>::empty());
        Ok((code, headers, content_length))
    }

    /// Reads the head of a backend response from the bytes received so far,
    /// given where the blank line that ends the head starts (`None` when the
    /// backend closed before one arrived). The bytes after the blank line are
    /// the start of the body.
    pub fn parse_backend_head(buffer: &Vec<u8>, headers_end: Option<usize>) -> (r: Result<
        BackendHead,
        ProxyError,
    >)
        requires
            headers_end matches Some(e) ==> e <= buffer@.len(),
        ensures
            match headers_end {
                None => r is Err && r->Err_0 == ProxyError::NoHeadersEnd,
                Some(e) => {
                    &&& head_read(utf8_lossy(buffer@.subrange(0, e as int)), buffer@, e as int, r)
                    &&& valid_utf8(buffer@.subrange(0, e as int)) ==> head_read(
                        decode_utf8(buffer@.subrange(0, e as int)),
                        buffer@,
                        e as int,
                        r,
                    )
                },
            },
    {
        let e = match headers_end {
            Some(e) => e,
            None => {
                return Err(ProxyError::NoHeadersEnd);
            },
        };
        let mut head: Vec<u8> = Vec::new();
        let mut k: usize = 0;
        while k < e
            invariant
                e <= buffer.len(),
                k <= e,
                head@ == buffer@.subrange(0, k as int),
            decreases e - k,
        {
            head.push(buffer[k]);
            assert(buffer@.subrange(0, k + 1) =~= buffer@.subrange(0, k as int).push(
                buffer@[k as int],
            ));
            k = k + 1;
        }
        let text = from_utf8_lossy(head.as_slice());
        let (status_code, headers, content_length) = Self::parse_backend_head_text(text.as_str())?;
        let mut initial_body: Vec<u8> = Vec::new();
        if e < buffer.len() && buffer.len() - e > 4 {
            let mut j = e + 4;
            while j < buffer.len()
                invariant
                    e + 4 <= j <= buffer.len(),
                    initial_body@ == buffer@.subrange(e + 4, j as int),
                decreases buffer.len() - j,
            {
                initial_body.push(buffer[j]);
                assert(buffer@.subrange(e + 4, j + 1) =~= buffer@.subrange(e + 4, j as int).push(
                    buffer@[j as int],
                ));
                j = j + 1;
            }
        } else {
            assert(initial_body@ =~= Seq::<u8>::empty());
        }
        Ok(BackendHead { status_code, headers, content_length, initial_body })
    }

    /// The response that a proxied request gets for each outcome: the
    /// backend's response, `504 Gateway Timeout` on a timeout, `502 Bad
    /// Gateway` on any other failure.
    pub fn outcome_response(&self, outcome: ProxyOutcome) -> (r: HttpResponse)
        ensures
            match outcome {
                ProxyOutcome::Received(resp) => r@ == resp@,
                ProxyOutcome::ConnectTimedOut => r@ == text_response(504, "Gateway Timeout"@),
                ProxyOutcome::ReadTimedOut => r@ == text_response(504, "Gateway Timeout"@),
                _ => r@ == text_response(502, "Bad Gateway"@),
            },
    {
        match outcome {
            ProxyOutcome::Received(resp) => resp,
            ProxyOutcome::ConnectTimedOut => self.create_error_response(504, "Gateway Timeout"),
            ProxyOutcome::ReadTimedOut => self.create_error_response(504, "Gateway Timeout"),
            ProxyOutcome::ConnectFailed => self.create_error_response(502, "Bad Gateway"),
            ProxyOutcome::ForwardFailed => self.create_error_response(502, "Bad Gateway"),
            ProxyOutcome::ReadFailed => self.create_error_response(502, "Bad Gateway"),
        }
    }

    /// A plain-text error response.
    pub fn create_error_response(&self, status_code: u16, message: &str) -> (r: HttpResponse)
        ensures
            r@ == text_response(status_code, message@),
    {
        HttpResponse::text(status_code, message)
    }
}

impl BackendHead {
    /// How many more body bytes to read: what `content-length` announces
    /// beyond the bytes already received, or `None` to read until the
    /// backend closes.
    pub fn remaining_body(&self) -> (r: Option<usize>)
        ensures
            match self.content_length {
                Some(l) => r == Some(
                    if l >= self.initial_body@.len() {
                        (l - self.initial_body@.len()) as usize
                    } else {
                        0usize
                    },
                ),
                None => r is None,
            },
    {
        match self.content_length {
            Some(l) => Some(l.saturating_sub(self.initial_body.len())),
            None => None,
        }
    }

    /// The response built from this head and the rest of the body.
    pub fn into_response(self, rest: Vec<u8>) -> (r: HttpResponse)
        ensures
            r@ == backend_response(self.status_code, self.headers@, self.initial_body@ + rest@),
    {
        let mut body = self.initial_body;
        let mut k: usize = 0;
        let ghost start = body@;
        while k < rest.len()
            invariant
                k <= rest.len(),
                body@ == start + rest@.subrange(0, k as int),
            decreases rest.len() - k,
        {
            body.push(rest[k]);
            assert(rest@.subrange(0, k + 1) =~= rest@.subrange(0, k as int).push(rest@[k as int]));
            k = k + 1;
        }
        assert(rest@.subrange(0, rest@.len() as int) =~= rest@);
        let mut response = HttpResponse::new(self.status_code);
        response.headers = self.headers;
        if body.len() > 0 {
            response.body = Some(ResponseBody::Bytes(body));
        }
        response
    }
}


// ---------------------------------------------------------------------------
// Laws
// ---------------------------------------------------------------------------

/// The chosen rule applies to the path and no earlier rule does; when none
/// is chosen, no rule applies.
pub proof fn lemma_first_match_is_first(rules: Seq<RuleView>, path: Seq<char>)
    ensures
        match first_match(rules, path) {
            Some(i) => 0 <= i < rules.len() && prefix_matches(rules[i].path_prefix, path)
                && forall|j: int| 0 <= j < i ==> !prefix_matches(rules[j].path_prefix, path),
            None => forall|j: int|
                0 <= j < rules.len() ==> !prefix_matches(rules[j].path_prefix, path),
        },
{
    lemma_first_match_from(rules, path, 0);
}

/// Matching from position `k` on finds the first applying rule at or after `k`.
pub proof fn lemma_first_match_from(rules: Seq<RuleView>, path: Seq<char>, k: int)
    requires
        0 <= k,
    ensures
        match first_match_from(rules, path, k) {
            Some(i) => k <= i < rules.len() && prefix_matches(rules[i].path_prefix, path)
                && forall|j: int| k <= j < i ==> !prefix_matches(rules[j].path_prefix, path),
            None => forall|j: int|
                k <= j < rules.len() ==> !prefix_matches(rules[j].path_prefix, path),
        },
    decreases rules.len() - k,
{
    if k < rules.len() && !prefix_matches(rules[k].path_prefix, path) {
        lemma_first_match_from(rules, path, k + 1);
    }
}

/// The path sent to the backend always starts with a slash.
pub proof fn lemma_backend_path_rooted(path: Seq<char>, rule: RuleView)
    ensures
        backend_path(path, rule).len() > 0,
        backend_path(path, rule)[0] == '/',
{
}

/// With stripping on, a path under a prefix loses the prefix: `/api/users`
/// under `/api` or `/api/` is requested as `/users`, and `/api` itself as `/`.
pub proof fn lemma_strip_prefix(path: Seq<char>, rule: RuleView, rest: Seq<char>)
    requires
        rule.strip_prefix,
        path == strip_target(rule.path_prefix) + seq!['/'] + rest,
    ensures
        backend_path(path, rule) == seq!['/'] + rest,
{
    let p = strip_target(rule.path_prefix);
    assert(path != p);
    assert(path.subrange(0, p.len() as int + 1) =~= p.push('/'));
    assert(path.subrange(p.len() as int, path.len() as int) =~= seq!['/'] + rest);
}

// ---------------------------------------------------------------------------
// Reading back a rendered response head
// ---------------------------------------------------------------------------

/// A header field as a rendered head writes it: `name: value`.
pub open spec fn field_text(h: HeaderView) -> Seq<char> {
    h.0 + ": "@ + h.1
}

/// The header fields, each after a line end, in order.
pub open spec fn crlf_fields(h: Seq<HeaderView>) -> Seq<char>
    decreases h.len(),
{
    if h.len() == 0 {
        Seq::empty()
    } else {
        "\r\n"@ + field_text(h[0]) + crlf_fields(h.drop_first())
    }
}

/// A response head up to the blank line that ends it: the status line and
/// the header lines, without the final line end.
pub open spec fn head_lead(r: ResponseView) -> Seq<char> {
    "HTTP/1.1 "@ + decimal(r.status_code as nat) + " "@ + r.status_text + crlf_fields(r.headers)
}

/// What reading back a response's headers gives: each name lowercased with
/// its value, stored in order, and the announced length of the last
/// `content-length` among them.
pub open spec fn read_back_headers(
    h: Seq<HeaderView>,
    acc: Seq<HeaderView>,
    cl: Option<nat>,
) -> (Seq<HeaderView>, Option<nat>)
    decreases h.len(),
{
    if h.len() == 0 {
        (acc, cl)
    } else {
        let k = lowercase(h[0].0);
        read_back_headers(
            h.drop_first(),
            insert_entry(acc, k, h[0].1),
            if k == "content-length"@ {
                parse_unsigned(h[0].1, usize::MAX as nat)
            } else {
                cl
            },
        )
    }
}

/// `s` holds no line feed.
pub open spec fn no_newline(s: Seq<char>) -> bool {
    forall|i: int| 0 <= i < s.len() ==> s[i] != '\n'
}

/// A head that reads back as written: no line feed in the status text, and
/// every header name free of line feeds and colons and every name and value
/// free of surrounding whitespace.
pub open spec fn plain_head(r: ResponseView) -> bool {
    &&& no_newline(r.status_text)
    &&& forall|j: int| 0 <= j < r.headers.len() ==> {
        let k = #[trigger] r.headers[j].0;
        let v = r.headers[j].1;
        &&& no_newline(k)
        &&& forall|i: int| 0 <= i < k.len() ==> k[i] != ':'
        &&& trim(k) == k
        &&& no_newline(v)
        &&& trim(v) == v
    }
}

/// Cutting at a line feed that follows text without one.
proof fn lemma_split_at_newline(a: Seq<char>, b: Seq<char>, cur: Seq<char>)
    requires
        no_newline(a),
    ensures
        split_from(a + seq!['\n'] + b, '\n', cur) == seq![cur + a] + split_from(b, '\n', seq![]),
    decreases a.len(),
{
    let s = a + seq!['\n'] + b;
    if a.len() == 0 {
        assert(s.drop_first() =~= b);
        assert(cur + a =~= cur);
    } else {
        assert(s[0] == a[0]);
        assert(s.drop_first() =~= a.drop_first() + seq!['\n'] + b);
        lemma_split_at_newline(a.drop_first(), b, cur.push(a[0]));
        assert(cur.push(a[0]) + a.drop_first() =~= cur + a);
    }
}

/// Text without a line feed is one piece.
proof fn lemma_split_whole(a: Seq<char>, cur: Seq<char>)
    requires
        no_newline(a),
    ensures
        split_from(a, '\n', cur) == seq![cur + a],
    decreases a.len(),
{
    if a.len() == 0 {
        assert(cur + a =~= cur);
    } else {
        lemma_split_whole(a.drop_first(), cur.push(a[0]));
        assert(cur.push(a[0]) + a.drop_first() =~= cur + a);
    }
}

/// The pieces that cutting `x` and the header fields at line feeds gives.
spec fn field_pieces(x: Seq<char>, h: Seq<HeaderView>) -> Seq<Seq<char>>
    decreases h.len(),
{
    if h.len() == 0 {
        seq![x]
    } else {
        seq![x + "\r"@] + field_pieces(field_text(h[0]), h.drop_first())
    }
}

/// Every header field is free of line feeds.
spec fn fields_plain(h: Seq<HeaderView>) -> bool {
    forall|j: int| 0 <= j < h.len() ==> no_newline(#[trigger] field_text(h[j]))
}

proof fn lemma_split_fields(x: Seq<char>, h: Seq<HeaderView>)
    requires
        no_newline(x),
        fields_plain(h),
    ensures
        split_from(x + crlf_fields(h), '\n', seq![]) == field_pieces(x, h),
    decreases h.len(),
{
    reveal_strlit("\r\n");
    reveal_strlit("\r");
    if h.len() == 0 {
        assert(x + crlf_fields(h) =~= x);
        lemma_split_whole(x, seq![]);
        assert(seq![] + x =~= x);
    } else {
        let rest = h.drop_first();
        let f0 = field_text(h[0]);
        assert(no_newline(f0));
        assert forall|j: int| 0 <= j < rest.len() implies no_newline(#[trigger] field_text(rest[j])) by {
            assert(rest[j] == h[j + 1]);
        }
        let a = x + "\r"@;
        assert(no_newline(a));
        assert(x + crlf_fields(h) =~= a + seq!['\n'] + (f0 + crlf_fields(rest)));
        lemma_split_at_newline(a, f0 + crlf_fields(rest), seq![]);
        lemma_split_fields(f0, rest);
        assert(seq![] + a =~= a);
    }
}

/// Each piece is its line, with a carriage return on all but the last.
proof fn lemma_field_pieces_at(x: Seq<char>, h: Seq<HeaderView>)
    ensures
        field_pieces(x, h).len() == h.len() + 1,
        forall|i: int| 0 <= i <= h.len() ==> #[trigger] field_pieces(x, h)[i] == (if i == 0 {
            x
        } else {
            field_text(h[i - 1])
        }) + (if i < h.len() {
            "\r"@
        } else {
            Seq::<char>::empty()
        }),
    decreases h.len(),
{
    if h.len() == 0 {
        assert(field_pieces(x, h)[0] == x);
        assert(x + Seq::<char>::empty() =~= x);
    } else {
        let rest = h.drop_first();
        let p = field_pieces(field_text(h[0]), rest);
        lemma_field_pieces_at(field_text(h[0]), rest);
        assert forall|i: int| 0 <= i <= h.len() implies #[trigger] field_pieces(x, h)[i] == (if i == 0 {
            x
        } else {
            field_text(h[i - 1])
        }) + (if i < h.len() {
            "\r"@
        } else {
            Seq::<char>::empty()
        }) by {
            if i > 0 {
                assert(field_pieces(x, h)[i] == p[i - 1]);
                if i > 1 {
                    assert(rest[i - 2] == h[i - 1]);
                }
            }
        }
    }
}

/// The lines of the status line and header fields are those lines.
proof fn lemma_lines_of_fields(x: Seq<char>, h: Seq<HeaderView>)
    requires
        no_newline(x),
        x.len() > 0,
        fields_plain(h),
    ensures
        lines(x + crlf_fields(h)) == seq![x] + h.map_values(|f: HeaderView| field_text(f)),
{
    reveal_strlit(": ");
    reveal_strlit("\r");
    lemma_split_fields(x, h);
    lemma_field_pieces_at(x, h);
    let pieces = field_pieces(x, h);
    let want = seq![x] + h.map_values(|f: HeaderView| field_text(f));
    let n = h.len() as int;
    assert(pieces.last() == pieces[n]);
    if n > 0 {
        assert(pieces[n] == field_text(h[n - 1]) + Seq::<char>::empty());
        assert(field_text(h[n - 1]).len() >= 2);
    } else {
        assert(pieces[0] == x + Seq::<char>::empty());
    }
    assert(pieces.last().len() > 0);
    let ended = pieces.drop_last().map_values(|l: Seq<char>| strip_cr(l));
    assert forall|i: int| 0 <= i < n implies #[trigger] ended[i] == want[i] by {
        let y = if i == 0 {
            x
        } else {
            field_text(h[i - 1])
        };
        assert(pieces[i] == y + "\r"@);
        assert((y + "\r"@).drop_last() =~= y);
    }
    assert(pieces[n] =~= want[n]);
    assert(ended.push(pieces.last()) =~= want);
}

/// Words separated by a whitespace character.
proof fn lemma_words_split(w: Seq<char>, c: char, rest: Seq<char>, cur: Seq<char>)
    requires
        forall|i: int| 0 <= i < w.len() ==> !is_white(#[trigger] w[i]),
        is_white(c),
    ensures
        words_from(w + seq![c] + rest, cur) == (if (cur + w).len() > 0 {
            seq![cur + w]
        } else {
            Seq::<Seq<char>>::empty()
        }) + words_from(rest, seq![]),
    decreases w.len(),
{
    let s = w + seq![c] + rest;
    if w.len() == 0 {
        assert(s.drop_first() =~= rest);
        assert(cur + w =~= cur);
    } else {
        assert(s[0] == w[0]);
        assert(s.drop_first() =~= w.drop_first() + seq![c] + rest);
        lemma_words_split(w.drop_first(), c, rest, cur.push(w[0]));
        assert(cur.push(w[0]) + w.drop_first() =~= cur + w);
    }
}

/// The status line's second word is the status code.
proof fn lemma_status_words(code: u16, text: Seq<char>)
    ensures
        words("HTTP/1.1 "@ + decimal(code as nat) + " "@ + text).len() >= 2,
        words("HTTP/1.1 "@ + decimal(code as nat) + " "@ + text)[1] == decimal(code as nat),
{
    reveal_strlit("HTTP/1.1 ");
    reveal_strlit("HTTP/1.1");
    reveal_strlit(" ");
    let d = decimal(code as nat);
    crate::text::lemma_decimal_spells(code as nat);
    assert forall|i: int| 0 <= i < d.len() implies !is_white(#[trigger] d[i]) by {
        assert(crate::text::is_digit(d[i]));
    }
    let v = "HTTP/1.1"@;
    assert forall|i: int| 0 <= i < v.len() implies !is_white(#[trigger] v[i]) by {}
    let tail = d + seq![' '] + text;
    assert("HTTP/1.1 "@ + d + " "@ + text =~= v + seq![' '] + tail);
    lemma_words_split(v, ' ', tail, seq![]);
    lemma_words_split(d, ' ', text, seq![]);
    assert(seq![] + v =~= v);
    assert(seq![] + d =~= d);
}

/// `name: value` has its first colon right after the name.
proof fn lemma_field_colon(h: HeaderView)
    requires
        forall|i: int| 0 <= i < h.0.len() ==> h.0[i] != ':',
    ensures
        index_of(field_text(h), ':') == Some(h.0.len() as int),
        field_text(h).subrange(0, h.0.len() as int) == h.0,
        field_text(h).subrange(h.0.len() as int + 1, field_text(h).len() as int) == seq![' '] + h.1,
{
    reveal_strlit(": ");
    let l = field_text(h);
    let k = h.0.len() as int;
    assert(l[k] == ':');
    assert(crate::text::is_first_index(l, ':', k));
    let c = choose|i: int| crate::text::is_first_index(l, ':', i);
    if c < k {
        assert(l[c] == h.0[c]);
    }
    assert(c == k);
    assert(l.subrange(0, k) =~= h.0);
    assert(l.subrange(k + 1, l.len() as int) =~= seq![' '] + h.1);
}

/// A space before trimmed text trims away.
proof fn lemma_trim_space(v: Seq<char>)
    requires
        trim(v) == v,
    ensures
        trim(seq![' '] + v) == v,
{
    let s = seq![' '] + v;
    assert(is_white(s[0]));
    assert(s.drop_first() =~= v);
    assert(crate::text::trim_start(s) == crate::text::trim_start(v));
}

/// The header lines read back as the header pairs they render.
proof fn lemma_read_fields(h: Seq<HeaderView>, acc: Seq<HeaderView>, cl: Option<nat>)
    requires
        forall|j: int| 0 <= j < h.len() ==> {
            let k = #[trigger] h[j].0;
            &&& forall|i: int| 0 <= i < k.len() ==> k[i] != ':'
            &&& trim(k) == k
            &&& trim(h[j].1) == h[j].1
        },
    ensures
        backend_headers_from(h.map_values(|f: HeaderView| field_text(f)), acc, cl)
            == read_back_headers(h, acc, cl),
    decreases h.len(),
{
    if h.len() > 0 {
        let ls = h.map_values(|f: HeaderView| field_text(f));
        let rest = h.drop_first();
        assert(h[0].0 == h[0].0);
        lemma_field_colon(h[0]);
        lemma_trim_space(h[0].1);
        assert(ls[0] == field_text(h[0]));
        assert(ls.drop_first() =~= rest.map_values(|f: HeaderView| field_text(f)));
        assert forall|j: int| 0 <= j < rest.len() implies {
            let k = #[trigger] rest[j].0;
            &&& forall|i: int| 0 <= i < k.len() ==> k[i] != ':'
            &&& trim(k) == k
            &&& trim(rest[j].1) == rest[j].1
        } by {
            assert(rest[j] == h[j + 1]);
            assert(h[j + 1].0 == h[j + 1].0);
        }
        let k = lowercase(h[0].0);
        lemma_read_fields(
            rest,
            insert_entry(acc, k, h[0].1),
            if k == "content-length"@ {
                parse_unsigned(h[0].1, usize::MAX as nat)
            } else {
                cl
            },
        );
    }
}

/// A response head, rendered and read back up to the blank line that ends
/// it, gives the response's status code and its headers with names
/// lowercased, when the status text, names and values hold no line feeds,
/// the names no colons, and names and values no surrounding whitespace.
pub proof fn lemma_rendered_head_read_back(r: ResponseView)
    requires
        plain_head(r),
    ensures
        head_text(r) == head_lead(r) + "\r\n\r\n"@,
        backend_head(head_lead(r)) == Ok::<(u16, Seq<HeaderView>, Option<nat>), ProxyError>(
            (
                r.status_code,
                read_back_headers(r.headers, Seq::empty(), None).0,
                read_back_headers(r.headers, Seq::empty(), None).1,
            ),
        ),
{
    let h = r.headers;
    let x = "HTTP/1.1 "@ + decimal(r.status_code as nat) + " "@ + r.status_text;
    lemma_crlf_header_lines(h);
    reveal_strlit("\r\n\r\n");
    reveal_strlit("\r\n");
    assert(head_text(r) =~= x + ("\r\n"@ + header_lines(h)) + "\r\n"@);
    assert(head_text(r) =~= head_lead(r) + "\r\n\r\n"@);
    reveal_strlit("HTTP/1.1 ");
    reveal_strlit(" ");
    crate::text::lemma_decimal_spells(r.status_code as nat);
    let d = decimal(r.status_code as nat);
    assert forall|i: int| 0 <= i < x.len() implies x[i] != '\n' by {
        if i >= 9 + d.len() + 1 {
            assert(x[i] == r.status_text[i - 10 - d.len()]);
        } else if i >= 9 && i < 9 + d.len() {
            assert(x[i] == d[i - 9]);
            assert(crate::text::is_digit(d[i - 9]));
        }
    }
    reveal_strlit(": ");
    assert forall|j: int| 0 <= j < h.len() implies no_newline(#[trigger] field_text(h[j])) by {
        let k = h[j].0;
        assert(no_newline(k));
        let f = field_text(h[j]);
        assert forall|i: int| 0 <= i < f.len() implies f[i] != '\n' by {
            if i >= k.len() + 2 {
                assert(f[i] == h[j].1[i - k.len() - 2]);
            } else if i < k.len() {
                assert(f[i] == k[i]);
            }
        }
    }
    lemma_lines_of_fields(x, h);
    assert(head_lead(r) == x + crlf_fields(h));
    let ls = lines(head_lead(r));
    assert(ls[0] == x);
    lemma_status_words(r.status_code, r.status_text);
    crate::text::lemma_parse_decimal(r.status_code as nat, 65535);
    assert(ls.drop_first() =~= h.map_values(|f: HeaderView| field_text(f)));
    assert forall|j: int| 0 <= j < h.len() implies {
        let k = #[trigger] h[j].0;
        &&& forall|i: int| 0 <= i < k.len() ==> k[i] != ':'
        &&& trim(k) == k
        &&& trim(h[j].1) == h[j].1
    } by {
        assert(h[j].0 == h[j].0);
    }
    lemma_read_fields(h, Seq::empty(), None);
}

/// The header fields after line ends, and the header lines after one.
proof fn lemma_crlf_header_lines(h: Seq<HeaderView>)
    ensures
        "\r\n"@ + header_lines(h) == crlf_fields(h) + "\r\n"@,
    decreases h.len(),
{
    reveal_strlit("\r\n");
    reveal_strlit(": ");
    if h.len() == 0 {
        assert("\r\n"@ + header_lines(h) =~= crlf_fields(h) + "\r\n"@);
    } else {
        let p = h.drop_last();
        lemma_crlf_header_lines(p);
        lemma_crlf_fields_snoc(h);
        assert("\r\n"@ + header_lines(h) =~= ("\r\n"@ + header_lines(p)) + h.last().0 + ": "@
            + h.last().1 + "\r\n"@);
        assert(crlf_fields(h) + "\r\n"@ =~= (crlf_fields(p) + "\r\n"@) + field_text(h.last())
            + "\r\n"@);
    }
}

/// The header fields end with the last one.
proof fn lemma_crlf_fields_snoc(h: Seq<HeaderView>)
    requires
        h.len() > 0,
    ensures
        crlf_fields(h) == crlf_fields(h.drop_last()) + "\r\n"@ + field_text(h.last()),
    decreases h.len(),
{
    if h.len() == 1 {
        assert(h.drop_first() =~= Seq::<HeaderView>::empty());
        assert(h.drop_last() =~= Seq::<HeaderView>::empty());
        assert(crlf_fields(h) =~= crlf_fields(h.drop_last()) + "\r\n"@ + field_text(h.last()));
    } else {
        let t = h.drop_first();
        lemma_crlf_fields_snoc(t);
        assert(t.drop_last() =~= h.drop_last().drop_first());
        assert(h.drop_last()[0] == h[0]);
        assert(t.last() == h.last());
        assert(crlf_fields(h) =~= crlf_fields(h.drop_last()) + "\r\n"@ + field_text(h.last()));
    }
}

/// Text followed by text encodes as the two encodings, one after the other.
proof fn lemma_encode_append(a: Seq<char>, b: Seq<char>)
    ensures
        encode_utf8(a + b) == encode_utf8(a) + encode_utf8(b),
    decreases a.len(),
{
    if a.len() == 0 {
        assert(a + b =~= b);
        assert(encode_utf8(a) + encode_utf8(b) =~= encode_utf8(b));
    } else {
        assert((a + b)[0] == a[0]);
        assert((a + b).drop_first() =~= a.drop_first() + b);
        lemma_encode_append(a.drop_first(), b);
        assert(encode_utf8(a + b) =~= encode_utf8(a) + encode_utf8(b));
    }
}

proof fn lemma_high_bit(x: u8)
    by (bit_vector)
    ensures
        (0x80u8 | x) >= 0x80u8,
        (0xC0u8 | x) >= 0x80u8,
        (0xE0u8 | x) >= 0x80u8,
        (0xF0u8 | x) >= 0x80u8,
{
}

proof fn lemma_low_seven(v: u32)
    by (bit_vector)
    requires
        v < 0x80,
    ensures
        ((v & 0x7Fu32) as u8) as u32 == v,
{
}

/// An ASCII character encodes as its own byte; every byte of any other
/// character's encoding is 0x80 or more.
proof fn lemma_scalar_bytes(c: char)
    ensures
        encode_scalar(c as u32).len() >= 1,
        (c as u32) < 0x80 ==> encode_scalar(c as u32).len() == 1 && encode_scalar(
            c as u32,
        )[0] as u32 == c as u32,
        (c as u32) >= 0x80 ==> forall|i: int|
            0 <= i < encode_scalar(c as u32).len() ==> #[trigger] encode_scalar(c as u32)[i] >= 0x80,
{
    let v = c as u32;
    vstd::utf8::char_is_scalar(c);
    if v < 0x80 {
        lemma_low_seven(v);
    } else {
        lemma_high_bit(((v >> 6) & 0x1F) as u8);
        lemma_high_bit(((v >> 12) & 0x0F) as u8);
        lemma_high_bit(((v >> 18) & 0x7) as u8);
        lemma_high_bit((v & 0x3F) as u8);
        lemma_high_bit(((v >> 6) & 0x3F) as u8);
        lemma_high_bit(((v >> 12) & 0x3F) as u8);
    }
}

/// Encoded text that begins with ASCII bytes begins with those characters.
proof fn lemma_ascii_prefix(t: Seq<char>, p: Seq<u8>)
    requires
        forall|i: int| 0 <= i < p.len() ==> #[trigger] p[i] < 0x80,
        p.len() <= encode_utf8(t).len(),
        encode_utf8(t).subrange(0, p.len() as int) == p,
    ensures
        p.len() <= t.len(),
        forall|i: int| 0 <= i < p.len() ==> #[trigger] t[i] as u32 == p[i] as u32,
    decreases p.len(),
{
    if p.len() > 0 {
        let e = encode_utf8(t);
        assert(t.len() > 0);
        let c = t[0];
        lemma_scalar_bytes(c);
        assert(e[0] == encode_scalar(c as u32)[0]);
        assert(e[0] == p[0]);
        assert((c as u32) < 0x80);
        let rest = t.drop_first();
        assert(e =~= encode_scalar(c as u32) + encode_utf8(rest));
        let q = p.drop_first();
        assert forall|i: int| 0 <= i < q.len() implies #[trigger] q[i] < 0x80 by {
            assert(q[i] == p[i + 1]);
        }
        assert(encode_utf8(rest).subrange(0, q.len() as int) =~= q) by {
            assert forall|i: int| 0 <= i < q.len() implies encode_utf8(rest)[i] == q[i] by {
                assert(e[i + 1] == encode_utf8(rest)[i]);
                assert(e.subrange(0, p.len() as int)[i + 1] == p[i + 1]);
            }
        }
        lemma_ascii_prefix(rest, q);
        assert forall|i: int| 0 <= i < p.len() implies #[trigger] t[i] as u32 == p[i] as u32 by {
            if i > 0 {
                assert(t[i] == rest[i - 1]);
                assert(q[i - 1] == p[i]);
            }
        }
    }
}

/// Text holds carriage return, line feed, carriage return, line feed at `j`.
pub open spec fn blank_line_at(t: Seq<char>, j: int) -> bool {
    &&& 0 <= j && j + 4 <= t.len()
    &&& t[j] == '\r' && t[j + 1] == '\n' && t[j + 2] == '\r' && t[j + 3] == '\n'
}

/// The bytes `\r\n\r\n` in encoded text come from those characters.
proof fn lemma_blank_bytes_from_chars(t: Seq<char>, i: int)
    requires
        is_head_end_at(encode_utf8(t), i),
    ensures
        exists|j: int| blank_line_at(t, j),
    decreases t.len(),
{
    let e = encode_utf8(t);
    assert(t.len() > 0);
    let c = t[0];
    let rest = t.drop_first();
    let w = encode_scalar(c as u32).len() as int;
    lemma_scalar_bytes(c);
    assert(e =~= encode_scalar(c as u32) + encode_utf8(rest));
    if i >= w {
        assert(is_head_end_at(encode_utf8(rest), i - w)) by {
            assert(e[i] == encode_utf8(rest)[i - w]);
            assert(e[i + 1] == encode_utf8(rest)[i - w + 1]);
            assert(e[i + 2] == encode_utf8(rest)[i - w + 2]);
            assert(e[i + 3] == encode_utf8(rest)[i - w + 3]);
        }
        lemma_blank_bytes_from_chars(rest, i - w);
        let j = choose|j: int| blank_line_at(rest, j);
        assert(blank_line_at(t, j + 1));
    } else {
        assert(e[i] == encode_scalar(c as u32)[i]);
        assert((c as u32) < 0x80);
        assert(i == 0);
        let p = seq![13u8, 10u8, 13u8, 10u8];
        assert(e.subrange(0, 4) =~= p);
        lemma_ascii_prefix(t, p);
        assert(t[0] as u32 == 13 && t[1] as u32 == 10 && t[2] as u32 == 13 && t[3] as u32 == 10);
        lemma_same_char(t[0], '\r');
        lemma_same_char(t[1], '\n');
        lemma_same_char(t[2], '\r');
        lemma_same_char(t[3], '\n');
        assert(blank_line_at(t, 0));
    }
}

/// After every line feed but a final one comes a character other than a
/// carriage return.
pub open spec fn no_blank_line(s: Seq<char>) -> bool {
    forall|p: int| 0 <= p && p + 1 < s.len() && s[p] == '\n' ==> #[trigger] s[p + 1] != '\r'
}

/// Trimming never lengthens text.
proof fn lemma_trim_len(s: Seq<char>)
    ensures
        crate::text::trim_start(s).len() <= s.len(),
        crate::text::trim_end(s).len() <= s.len(),
    decreases s.len(),
{
    if s.len() > 0 {
        lemma_trim_len(s.drop_first());
        lemma_trim_len(s.drop_last());
    }
}

/// Trimmed text does not begin with whitespace.
proof fn lemma_trimmed_first(k: Seq<char>)
    requires
        trim(k) == k,
        k.len() > 0,
    ensures
        !is_white(k[0]),
{
    if is_white(k[0]) {
        lemma_trim_len(k.drop_first());
        lemma_trim_len(crate::text::trim_start(k));
        assert(crate::text::trim_start(k) == crate::text::trim_start(k.drop_first()));
        assert(trim(k).len() < k.len());
    }
}

proof fn lemma_fields_no_blank(x: Seq<char>, h: Seq<HeaderView>)
    requires
        no_newline(x),
        fields_plain(h),
        forall|j: int| 0 <= j < h.len() ==> #[trigger] field_text(h[j])[0] != '\r',
    ensures
        no_blank_line(x + crlf_fields(h)),
    decreases h.len(),
{
    reveal_strlit("\r\n");
    reveal_strlit(": ");
    let s = x + crlf_fields(h);
    if h.len() == 0 {
        assert(s =~= x);
    } else {
        let rest = h.drop_first();
        let f0 = field_text(h[0]);
        assert(f0[0] != '\r');
        assert(f0.len() >= 2);
        assert forall|j: int| 0 <= j < rest.len() implies no_newline(#[trigger] field_text(rest[j])) by {
            assert(rest[j] == h[j + 1]);
        }
        assert forall|j: int| 0 <= j < rest.len() implies #[trigger] field_text(rest[j])[0] != '\r' by {
            assert(rest[j] == h[j + 1]);
        }
        assert(no_newline(f0));
        lemma_fields_no_blank(f0, rest);
        let y = f0 + crlf_fields(rest);
        let n = x.len() as int;
        assert(s =~= x + seq!['\r', '\n'] + y);
        assert forall|p: int| 0 <= p && p + 1 < s.len() && s[p] == '\n' implies #[trigger] s[p + 1]
            != '\r' by {
            assert(s[n] == '\r');
            assert(s[n + 1] == '\n');
            if p < n {
                assert(s[p] == x[p]);
            } else if p == n + 1 {
                assert(s[p + 1] == y[0]);
                assert(y[0] == f0[0]);
            } else if p > n + 1 {
                let q = p - n - 2;
                assert(s[p] == y[q]);
                assert(s[p + 1] == y[q + 1]);
                assert(y[q + 1] != '\r');
            }
        }
    }
}

/// The first blank line in `b` at or after `k` starts at `m`, when it is
/// there and none starts between.
proof fn lemma_head_end_first(b: Seq<u8>, k: int, m: int)
    requires
        0 <= k <= m,
        is_head_end_at(b, m),
        forall|i: int| k <= i < m ==> !is_head_end_at(b, i),
    ensures
        head_end_from(b, k) == Some(m),
    decreases m - k,
{
    if k < m {
        lemma_head_end_first(b, k + 1, m);
    }
}

/// Characters with the same code are the same character.
proof fn lemma_same_char(c: char, d: char)
    requires
        c as u32 == d as u32,
    ensures
        c == d,
{
    vstd::utf8::char_u32_cast(c, c as u32);
    vstd::utf8::char_u32_cast(d, d as u32);
}

/// ASCII text encodes byte for byte.
proof fn lemma_encode_ascii(t: Seq<char>)
    requires
        forall|i: int| 0 <= i < t.len() ==> (#[trigger] t[i] as u32) < 0x80,
    ensures
        encode_utf8(t).len() == t.len(),
        forall|i: int| 0 <= i < t.len() ==> #[trigger] encode_utf8(t)[i] as u32 == t[i] as u32,
    decreases t.len(),
{
    if t.len() > 0 {
        let rest = t.drop_first();
        assert forall|i: int| 0 <= i < rest.len() implies (#[trigger] rest[i] as u32) < 0x80 by {
            assert(rest[i] == t[i + 1]);
        }
        lemma_encode_ascii(rest);
        assert((t[0] as u32) < 0x80);
        lemma_scalar_bytes(t[0]);
        let e = encode_utf8(t);
        assert(e =~= encode_scalar(t[0] as u32) + encode_utf8(rest));
        assert forall|i: int| 0 <= i < t.len() implies #[trigger] e[i] as u32 == t[i] as u32 by {
            if i > 0 {
                assert(e[i] == encode_utf8(rest)[i - 1]);
                assert(t[i] == rest[i - 1]);
            }
        }
    }
}

/// The bytes of a blank line.
proof fn lemma_encode_blank()
    ensures
        encode_utf8("\r\n\r\n"@) == seq![13u8, 10u8, 13u8, 10u8],
{
    reveal_strlit("\r\n\r\n");
    let t = "\r\n\r\n"@;
    assert(t[0] as u32 == 13 && t[1] as u32 == 10 && t[2] as u32 == 13 && t[3] as u32 == 10);
    lemma_encode_ascii(t);
    let e = encode_utf8(t);
    assert(e[0] as u32 == 13 && e[1] as u32 == 10 && e[2] as u32 == 13 && e[3] as u32 == 10);
    assert(e =~= seq![13u8, 10u8, 13u8, 10u8]);
}

/// A head's status and header lines hold no blank line and do not end with
/// a line feed.
proof fn lemma_lead_shape(r: ResponseView)
    requires
        plain_head(r),
    ensures
        no_blank_line(head_lead(r)),
        head_lead(r).len() > 0,
        head_lead(r).last() != '\n',
{
    let l = head_lead(r);
    let h = r.headers;
    let x = "HTTP/1.1 "@ + decimal(r.status_code as nat) + " "@ + r.status_text;
    reveal_strlit("HTTP/1.1 ");
    reveal_strlit(" ");
    reveal_strlit(": ");
    reveal_strlit("\r\n");
    crate::text::lemma_decimal_spells(r.status_code as nat);
    let d = decimal(r.status_code as nat);
    assert forall|i: int| 0 <= i < x.len() implies x[i] != '\n' by {
        if i >= 9 + d.len() + 1 {
            assert(x[i] == r.status_text[i - 10 - d.len()]);
        } else if i >= 9 && i < 9 + d.len() {
            assert(x[i] == d[i - 9]);
            assert(crate::text::is_digit(d[i - 9]));
        }
    }
    assert forall|j: int| 0 <= j < h.len() implies no_newline(#[trigger] field_text(h[j])) by {
        let k = h[j].0;
        assert(no_newline(k));
        let f = field_text(h[j]);
        assert forall|i: int| 0 <= i < f.len() implies f[i] != '\n' by {
            if i >= k.len() + 2 {
                assert(f[i] == h[j].1[i - k.len() - 2]);
            } else if i < k.len() {
                assert(f[i] == k[i]);
            }
        }
    }
    assert forall|j: int| 0 <= j < h.len() implies #[trigger] field_text(h[j])[0] != '\r' by {
        let k = h[j].0;
        if k.len() > 0 {
            lemma_trimmed_first(k);
            assert(field_text(h[j])[0] == k[0]);
        } else {
            assert(field_text(h[j])[0] == ':');
        }
    }
    lemma_fields_no_blank(x, h);
    assert(l == x + crlf_fields(h));
    if h.len() == 0 {
        assert(l =~= x);
        assert(l.last() == x[x.len() - 1]);
    } else {
        lemma_crlf_fields_snoc(h);
        let f = field_text(h.last());
        assert(no_newline(f));
        assert(f.len() >= 2);
        assert(l =~= x + crlf_fields(h.drop_last()) + "\r\n"@ + f);
        assert(l.last() == f[f.len() - 1]);
    }
}

/// In text without a blank line and not ending with a line feed, followed
/// by the bytes of a blank line, the first blank line is that one.
proof fn lemma_first_blank_after(l: Seq<char>, body: Seq<u8>)
    requires
        no_blank_line(l),
        l.len() > 0,
        l.last() != '\n',
    ensures
        head_end_from(encode_utf8(l) + seq![13u8, 10u8, 13u8, 10u8] + body, 0) == Some(
            encode_utf8(l).len() as int,
        ),
{
    let el = encode_utf8(l);
    let m = el.len() as int;
    let b = el + seq![13u8, 10u8, 13u8, 10u8] + body;
    assert(b[m] == 13 && b[m + 1] == 10 && b[m + 2] == 13 && b[m + 3] == 10);
    assert(is_head_end_at(b, m));
    assert forall|i: int| 0 <= i < m implies !is_head_end_at(b, i) by {
        if is_head_end_at(b, i) {
            if i + 4 <= m {
                assert(is_head_end_at(el, i)) by {
                    assert(b[i] == el[i]);
                    assert(b[i + 1] == el[i + 1]);
                    assert(b[i + 2] == el[i + 2]);
                    assert(b[i + 3] == el[i + 3]);
                }
                lemma_blank_bytes_from_chars(l, i);
                let j = choose|j: int| blank_line_at(l, j);
                assert(l[j + 1] == '\n');
                assert(l[j + 1 + 1] != '\r');
            } else if i == m - 2 {
                assert(b[m - 1] == el[m - 1]);
                let c = l.last();
                lemma_encode_append(l.drop_last(), seq![c]);
                assert(l.drop_last() + seq![c] =~= l);
                lemma_scalar_bytes(c);
                assert(encode_utf8(seq![c]) =~= encode_scalar(c as u32) + encode_utf8(
                    seq![c].drop_first(),
                ));
                assert(encode_utf8(seq![c].drop_first()) =~= Seq::<u8>::empty()) by {
                    assert(seq![c].drop_first() =~= Seq::<char>::empty());
                }
                let w = encode_scalar(c as u32).len() as int;
                assert(el[m - 1] == encode_scalar(c as u32)[w - 1]);
                assert((c as u32) < 0x80);
                assert(c as u32 == '\n' as u32);
                lemma_same_char(c, '\n');
            } else {
                assert(b[m] == 13);
            }
        }
    }
    lemma_head_end_first(b, 0, m);
}

/// A response head rendered as UTF-8 and followed by body bytes reads back:
/// its blank line is the first in the bytes, the bytes before it decode to
/// the head's status and header lines, which give the response's status
/// code and its headers with names lowercased, and the bytes after it are
/// the body. This holds when the status text, header names and values hold
/// no line feeds, the names no colons, and names and values no surrounding
/// whitespace.
pub proof fn lemma_rendered_response_read_back(r: ResponseView, body: Seq<u8>)
    requires
        plain_head(r),
    ensures
        ({
            let b = encode_utf8(head_text(r)) + body;
            let m = encode_utf8(head_lead(r)).len() as int;
            &&& head_end_from(b, 0) == Some(m)
            &&& valid_utf8(b.subrange(0, m))
            &&& decode_utf8(b.subrange(0, m)) == head_lead(r)
            &&& b.subrange(m + 4, b.len() as int) == body
            &&& backend_head(head_lead(r)) == Ok::<
                (u16, Seq<HeaderView>, Option<nat>),
                ProxyError,
            >(
                (
                    r.status_code,
                    read_back_headers(r.headers, Seq::empty(), None).0,
                    read_back_headers(r.headers, Seq::empty(), None).1,
                ),
            )
        }),
{
    lemma_rendered_head_read_back(r);
    let l = head_lead(r);
    let el = encode_utf8(l);
    let m = el.len() as int;
    let b = encode_utf8(head_text(r)) + body;
    lemma_encode_append(l, "\r\n\r\n"@);
    lemma_encode_blank();
    assert(b =~= el + seq![13u8, 10u8, 13u8, 10u8] + body);
    assert(b.subrange(0, m) =~= el);
    vstd::utf8::encode_utf8_valid_utf8(l);
    vstd::utf8::encode_utf8_decode_utf8(l);
    assert(b.subrange(m + 4, b.len() as int) =~= body);
    lemma_lead_shape(r);
    lemma_first_blank_after(l, body);
}

// ---------------------------------------------------------------------------
// What the rules match and what is forwarded
// ---------------------------------------------------------------------------

/// A prefix ending in `/` matches every path that starts with it (so `/`
/// matches every path that starts with `/`); any prefix matches the path
/// equal to it.
pub proof fn lemma_prefix_covers(prefix: Seq<char>, path: Seq<char>)
    ensures
        ends_in_slash(prefix) && has_prefix(path, prefix) ==> prefix_matches(prefix, path),
        !ends_in_slash(prefix) && path == prefix ==> prefix_matches(prefix, path),
        !ends_in_slash(prefix) && has_prefix(path, prefix.push('/')) ==> prefix_matches(prefix, path),
{
}

/// A path matched by a rule starts with the rule's prefix without a final
/// slash: no rule applies to a path outside its prefix.
pub proof fn lemma_prefix_matched_path(prefix: Seq<char>, path: Seq<char>)
    ensures
        prefix_matches(prefix, path) ==> has_prefix(path, strip_target(prefix)),
{
    if prefix_matches(prefix, path) {
        let t = strip_target(prefix);
        if ends_in_slash(prefix) {
            if has_prefix(path, prefix) {
                assert(path.subrange(0, t.len() as int) =~= prefix.subrange(0, t.len() as int));
                assert(prefix.subrange(0, t.len() as int) =~= t);
            } else {
                assert(path.subrange(0, t.len() as int) =~= t);
            }
        } else {
            if path == prefix {
                assert(path.subrange(0, t.len() as int) =~= t);
            } else {
                assert(path.subrange(0, t.len() as int) =~= prefix.push('/').subrange(
                    0,
                    t.len() as int,
                ));
                assert(prefix.push('/').subrange(0, t.len() as int) =~= t);
            }
        }
    }
}

/// When some rule's prefix ends in `/` and the path starts with it, a rule
/// is chosen, and it is that rule or an earlier one: with the single rule
/// `/`, every path that starts with `/` is proxied.
pub proof fn lemma_slash_rule_chosen(rules: Seq<RuleView>, path: Seq<char>, j: int)
    requires
        0 <= j < rules.len(),
        ends_in_slash(rules[j].path_prefix),
        has_prefix(path, rules[j].path_prefix),
    ensures
        first_match(rules, path) matches Some(i) && i <= j,
{
    lemma_prefix_covers(rules[j].path_prefix, path);
    lemma_first_match_is_first(rules, path);
}

/// `t` occurs in `s` as one run of characters.
pub open spec fn contains_text(s: Seq<char>, t: Seq<char>) -> bool {
    exists|p: int| 0 <= p && p + t.len() <= s.len() && #[trigger] s.subrange(p, p + t.len()) == t
}

/// Text that begins with `a` contains whatever `a` contains.
proof fn lemma_contains_in_prefix(a: Seq<char>, s: Seq<char>, t: Seq<char>)
    requires
        has_prefix(s, a),
        contains_text(a, t),
    ensures
        contains_text(s, t),
{
    let p = choose|p: int| 0 <= p && p + t.len() <= a.len() && #[trigger] a.subrange(p, p + t.len()) == t;
    assert(s.subrange(p, p + t.len()) =~= a.subrange(p, p + t.len())) by {
        assert forall|i: int| 0 <= i < t.len() implies #[trigger] s.subrange(p, p + t.len())[i]
            == a.subrange(p, p + t.len())[i] by {
            assert(s[p + i] == s.subrange(0, a.len() as int)[p + i]);
        }
    }
}

/// Forwarding the client's headers only appends to the text.
proof fn lemma_client_headers_extend(h: Seq<HeaderView>, acc: (Seq<char>, Seq<Seq<char>>))
    ensures
        has_prefix(forward_client_headers(h, acc).0, acc.0),
    decreases h.len(),
{
    if h.len() == 0 {
        assert(acc.0.subrange(0, acc.0.len() as int) =~= acc.0);
    } else {
        let kl = lowercase(h[0].0);
        let next = if !acc.1.contains(kl) && kl != "connection"@ {
            (acc.0 + header_line(h[0].0, h[0].1), acc.1.push(kl))
        } else {
            acc
        };
        lemma_client_headers_extend(h.drop_first(), next);
        let r = forward_client_headers(h, acc).0;
        assert(r.subrange(0, acc.0.len() as int) =~= r.subrange(0, next.0.len() as int).subrange(
            0,
            acc.0.len() as int,
        ));
        assert(next.0.subrange(0, acc.0.len() as int) =~= acc.0);
    }
}

/// Adding the rule's headers only appends to the text.
proof fn lemma_rule_headers_extend(h: Seq<HeaderView>, text: Seq<char>, sent: Seq<Seq<char>>)
    ensures
        has_prefix(forward_rule_headers(h, text, sent), text),
    decreases h.len(),
{
    if h.len() == 0 {
        assert(text.subrange(0, text.len() as int) =~= text);
    } else {
        let kl = lowercase(h[0].0);
        let next = if !sent.contains(kl) {
            text + header_line(h[0].0, h[0].1)
        } else {
            text
        };
        lemma_rule_headers_extend(h.drop_first(), next, sent);
        let r = forward_rule_headers(h, text, sent);
        assert(r.subrange(0, text.len() as int) =~= r.subrange(0, next.len() as int).subrange(
            0,
            text.len() as int,
        ));
        assert(next.subrange(0, text.len() as int) =~= text);
    }
}

/// A client header whose lowercased name is neither `connection`, nor one
/// already sent, nor that of an earlier client header, is forwarded.
proof fn lemma_client_header_kept(h: Seq<HeaderView>, acc: (Seq<char>, Seq<Seq<char>>), j: int)
    requires
        0 <= j < h.len(),
        lowercase(h[j].0) != "connection"@,
        !acc.1.contains(lowercase(h[j].0)),
        forall|i: int| 0 <= i < j ==> lowercase(#[trigger] h[i].0) != lowercase(h[j].0),
    ensures
        contains_text(forward_client_headers(h, acc).0, header_line(h[j].0, h[j].1)),
    decreases h.len(),
{
    let kl = lowercase(h[0].0);
    let next = if !acc.1.contains(kl) && kl != "connection"@ {
        (acc.0 + header_line(h[0].0, h[0].1), acc.1.push(kl))
    } else {
        acc
    };
    let rest = h.drop_first();
    if j == 0 {
        lemma_client_headers_extend(rest, next);
        let line = header_line(h[0].0, h[0].1);
        let p = acc.0.len() as int;
        assert(next.0.subrange(p, p + line.len()) =~= line);
        assert(contains_text(next.0, line));
        lemma_contains_in_prefix(next.0, forward_client_headers(h, acc).0, line);
    } else {
        assert(h[0].0 == h[0].0);
        assert(lowercase(h[0].0) != lowercase(h[j].0));
        assert(!next.1.contains(lowercase(h[j].0))) by {
            if !acc.1.contains(kl) && kl != "connection"@ {
                if acc.1.push(kl).contains(lowercase(h[j].0)) {
                    let q = choose|q: int|
                        0 <= q < acc.1.push(kl).len() && acc.1.push(kl)[q] == lowercase(h[j].0);
                    if q < acc.1.len() {
                        assert(acc.1[q] == lowercase(h[j].0));
                    }
                }
            }
        }
        assert(rest[j - 1] == h[j]);
        assert forall|i: int| 0 <= i < j - 1 implies lowercase(#[trigger] rest[i].0) != lowercase(
            rest[j - 1].0,
        ) by {
            assert(rest[i] == h[i + 1]);
            assert(h[i + 1].0 == h[i + 1].0);
        }
        lemma_client_header_kept(rest, next, j - 1);
    }
}

/// Every client header whose lowercased name is neither `connection` nor
/// `host` (sent first) nor that of an earlier client header appears as its
/// own `name: value` line in the head sent to the backend, so a request with
/// a body keeps its `content-length`.
pub proof fn lemma_client_header_forwarded(
    method: Seq<char>,
    path: Seq<char>,
    host: Seq<char>,
    client: Seq<HeaderView>,
    rule: Seq<HeaderView>,
    j: int,
)
    requires
        0 <= j < client.len(),
        lowercase(client[j].0) != "connection"@,
        lowercase(client[j].0) != "host"@,
        forall|i: int| 0 <= i < j ==> lowercase(#[trigger] client[i].0) != lowercase(client[j].0),
    ensures
        contains_text(
            forward_head(method, path, host, client, rule),
            header_line(client[j].0, client[j].1),
        ),
{
    let t0 = method + " "@ + path + " HTTP/1.1\r\n"@ + header_line("Host"@, host);
    let t1 = match lookup(client, "host"@) {
        Some(h) => t0 + header_line("X-Forwarded-Host"@, h),
        None => t0,
    };
    let t2 = match lookup(client, "x-forwarded-for"@) {
        Some(e) => t1 + header_line("X-Forwarded-For"@, e + ", proxy"@),
        None => t1 + header_line("X-Forwarded-For"@, "proxy"@),
    };
    let t3 = t2 + header_line("X-Forwarded-Proto"@, "http"@);
    let acc = (t3, seq!["host"@]);
    assert(!acc.1.contains(lowercase(client[j].0))) by {
        if acc.1.contains(lowercase(client[j].0)) {
            assert(acc.1[0] == "host"@);
        }
    }
    lemma_client_header_kept(client, acc, j);
    let done = forward_client_headers(client, acc);
    let rh = forward_rule_headers(rule, done.0, done.1);
    lemma_rule_headers_extend(rule, done.0, done.1);
    let line = header_line(client[j].0, client[j].1);
    lemma_contains_in_prefix(done.0, rh, line);
    let all = forward_head(method, path, host, client, rule);
    assert(all == rh + header_line("Connection"@, "close"@) + "\r\n"@);
    assert(has_prefix(all, rh)) by {
        assert(all.subrange(0, rh.len() as int) =~= rh);
    }
    lemma_contains_in_prefix(rh, all, line);
}

/// A rule applies to exactly the path equal to its prefix without a final
/// slash and the paths that continue that with a slash: `/api` and `/api/`
/// both take `/api` and `/api/...` but not `/apix`, and `/` takes every path
/// that starts with `/`.
pub proof fn lemma_prefix_match_exact(prefix: Seq<char>, path: Seq<char>)
    ensures
        prefix_matches(prefix, path) == (path == strip_target(prefix) || has_prefix(
            path,
            strip_target(prefix).push('/'),
        )),
{
    if ends_in_slash(prefix) {
        assert(prefix.drop_last().push('/') =~= prefix);
    }
}

/// The names that forwarding the client's headers records as sent are the
/// ones recorded before and the lowercased names of client headers.
proof fn lemma_client_sent_names(h: Seq<HeaderView>, acc: (Seq<char>, Seq<Seq<char>>), x: Seq<char>)
    requires
        forward_client_headers(h, acc).1.contains(x),
    ensures
        acc.1.contains(x) || exists|i: int| 0 <= i < h.len() && lowercase(#[trigger] h[i].0) == x,
    decreases h.len(),
{
    if h.len() > 0 {
        let kl = lowercase(h[0].0);
        let next = if !acc.1.contains(kl) && kl != "connection"@ {
            (acc.0 + header_line(h[0].0, h[0].1), acc.1.push(kl))
        } else {
            acc
        };
        let rest = h.drop_first();
        lemma_client_sent_names(rest, next, x);
        if exists|i: int| 0 <= i < rest.len() && lowercase(#[trigger] rest[i].0) == x {
            let i = choose|i: int| 0 <= i < rest.len() && lowercase(#[trigger] rest[i].0) == x;
            assert(rest[i] == h[i + 1]);
            assert(lowercase(h[i + 1].0) == x);
        } else if next.1.contains(x) && !acc.1.contains(x) {
            let q = choose|q: int| 0 <= q < next.1.len() && next.1[q] == x;
            if q < acc.1.len() {
                assert(acc.1[q] == x);
            }
            assert(h[0].0 == h[0].0);
            assert(lowercase(h[0].0) == x);
        }
    }
}

/// A rule header whose lowercased name was not sent is added.
proof fn lemma_rule_header_kept(h: Seq<HeaderView>, text: Seq<char>, sent: Seq<Seq<char>>, j: int)
    requires
        0 <= j < h.len(),
        !sent.contains(lowercase(h[j].0)),
    ensures
        contains_text(forward_rule_headers(h, text, sent), header_line(h[j].0, h[j].1)),
    decreases h.len(),
{
    let kl = lowercase(h[0].0);
    let next = if !sent.contains(kl) {
        text + header_line(h[0].0, h[0].1)
    } else {
        text
    };
    let rest = h.drop_first();
    if j == 0 {
        lemma_rule_headers_extend(rest, next, sent);
        let line = header_line(h[0].0, h[0].1);
        let p = text.len() as int;
        assert(next.subrange(p, p + line.len()) =~= line);
        assert(contains_text(next, line));
        lemma_contains_in_prefix(next, forward_rule_headers(h, text, sent), line);
    } else {
        assert(rest[j - 1] == h[j]);
        lemma_rule_header_kept(rest, next, sent, j - 1);
    }
}

/// The head sent to the backend begins with the request line and the
/// backend's `Host`, carries `X-Forwarded-For` and `X-Forwarded-Proto`, and
/// ends with `Connection: close` and the blank line; every rule header whose
/// lowercased name is neither `host` nor that of a client header is in it.
pub proof fn lemma_forward_head_frame(
    method: Seq<char>,
    path: Seq<char>,
    host: Seq<char>,
    client: Seq<HeaderView>,
    rule: Seq<HeaderView>,
)
    ensures
        has_prefix(
            forward_head(method, path, host, client, rule),
            method + " "@ + path + " HTTP/1.1\r\n"@ + header_line("Host"@, host),
        ),
        crate::text::has_suffix(
            forward_head(method, path, host, client, rule),
            header_line("Connection"@, "close"@) + "\r\n"@,
        ),
        contains_text(
            forward_head(method, path, host, client, rule),
            header_line("X-Forwarded-Proto"@, "http"@),
        ),
        contains_text(
            forward_head(method, path, host, client, rule),
            header_line(
                "X-Forwarded-For"@,
                match lookup(client, "x-forwarded-for"@) {
                    Some(e) => e + ", proxy"@,
                    None => "proxy"@,
                },
            ),
        ),
        forall|j: int|
            0 <= j < rule.len() && lowercase(#[trigger] rule[j].0) != "host"@ && (forall|i: int|
                0 <= i < client.len() ==> lowercase(#[trigger] client[i].0) != lowercase(rule[j].0))
                ==> contains_text(
                forward_head(method, path, host, client, rule),
                header_line(rule[j].0, rule[j].1),
            ),
{
    let t0 = method + " "@ + path + " HTTP/1.1\r\n"@ + header_line("Host"@, host);
    let t1 = match lookup(client, "host"@) {
        Some(h) => t0 + header_line("X-Forwarded-Host"@, h),
        None => t0,
    };
    let xff = header_line(
        "X-Forwarded-For"@,
        match lookup(client, "x-forwarded-for"@) {
            Some(e) => e + ", proxy"@,
            None => "proxy"@,
        },
    );
    let t2 = t1 + xff;
    let xfp = header_line("X-Forwarded-Proto"@, "http"@);
    let t3 = t2 + xfp;
    let acc = (t3, seq!["host"@]);
    let done = forward_client_headers(client, acc);
    let rh = forward_rule_headers(rule, done.0, done.1);
    let tail = header_line("Connection"@, "close"@) + "\r\n"@;
    let all = forward_head(method, path, host, client, rule);
    assert(all == rh + tail);
    lemma_client_headers_extend(client, acc);
    lemma_rule_headers_extend(rule, done.0, done.1);
    assert(has_prefix(all, rh)) by {
        assert(all.subrange(0, rh.len() as int) =~= rh);
    }
    assert(all.subrange(all.len() - tail.len(), all.len() as int) =~= tail);
    // The leading text.
    assert(has_prefix(t3, t0)) by {
        assert(t3.subrange(0, t0.len() as int) =~= t0);
    }
    assert(has_prefix(all, t0)) by {
        assert(all.subrange(0, t0.len() as int) =~= t3.subrange(0, t0.len() as int));
        assert(done.0.subrange(0, t0.len() as int) =~= t3.subrange(0, t0.len() as int));
        assert(rh.subrange(0, t0.len() as int) =~= done.0.subrange(0, t0.len() as int));
    }
    // The forwarding headers.
    assert(t3.subrange(t1.len() as int, t1.len() + xff.len() as int) =~= xff);
    assert(contains_text(t3, xff));
    assert(t3.subrange(t2.len() as int, t2.len() + xfp.len() as int) =~= xfp);
    assert(contains_text(t3, xfp));
    lemma_contains_in_prefix(t3, done.0, xff);
    lemma_contains_in_prefix(done.0, rh, xff);
    lemma_contains_in_prefix(rh, all, xff);
    lemma_contains_in_prefix(t3, done.0, xfp);
    lemma_contains_in_prefix(done.0, rh, xfp);
    lemma_contains_in_prefix(rh, all, xfp);
    // The rule's headers.
    assert forall|j: int|
        0 <= j < rule.len() && lowercase(#[trigger] rule[j].0) != "host"@ && (forall|i: int|
            0 <= i < client.len() ==> lowercase(#[trigger] client[i].0) != lowercase(rule[j].0))
            implies contains_text(all, header_line(rule[j].0, rule[j].1)) by {
        let x = lowercase(rule[j].0);
        if done.1.contains(x) {
            lemma_client_sent_names(client, acc, x);
            if acc.1.contains(x) {
                let q = choose|q: int| 0 <= q < acc.1.len() && acc.1[q] == x;
                assert(acc.1[q] == "host"@);
            }
        }
        lemma_rule_header_kept(rule, done.0, done.1, j);
        lemma_contains_in_prefix(rh, all, header_line(rule[j].0, rule[j].1));
    }
}

} // verus!
