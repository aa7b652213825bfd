//! A worker's decisions: admitting connections, keeping them open, routing a
//! request to the proxy, the cache or the file server, and the bytes sent back.

use vstd::prelude::*;
use vstd::utf8::encode_utf8;

use crate::cache::{get_outcome, lru_after_put, opt_response_view, CacheEntry, ResponseCache};
use crate::http::{
    head_text, keeps_alive, new_response, text_response, BodyView, HttpRequest, HttpResponse,
    ResponseBody, ResponseView,
};
use crate::proxy::{first_match, rules_view, ProxyError, ReverseProxy};
use crate::text::{chars_eq_str, chars_of, copy_bytes};

verus! {

/// The next connection count when one more connection arrives, or `None`
/// when the worker already accepted `limit` connections and drops it.
pub open spec fn admitted(count: usize, limit: usize) -> Option<usize> {
    if count >= limit {
        None
    } else {
        Some((count + 1) as usize)
    }
}

/// Admits a new connection: the count of accepted connections goes up by
/// one until it reaches `limit`; it never goes down.
pub fn admit_connection(count: usize, limit: usize) -> (r: Option<usize>)
    ensures
        r == admitted(count, limit),
{
    if count >= limit {
        None
    } else {
        Some(count + 1)
    }
}

/// Whether a connection stays open after `request`, `elapsed_nanos` after it
/// was opened: the request asks to keep it and the keep-alive time has not run out.
pub fn keep_connection_alive(request: &HttpRequest, elapsed_nanos: u128, timeout_secs: u64) -> (b:
    bool)
    ensures
        b == (keeps_alive(request.headers@, request.version@) && elapsed_nanos < timeout_secs
            * 1_000_000_000),
{
    request.should_keep_alive() && elapsed_nanos < (timeout_secs as u128) * 1_000_000_000
}

/// What to do with a request after the first look.
pub enum RequestStep {
    /// Send this response.
    Respond(HttpResponse),
    /// Forward the request with the proxy rule at this position.
    Proxy(usize),
    /// Serve the requested file; `head` for a `HEAD` request.
    ServeFile { head: bool },
}

/// Requests that the file server handles: `GET` and `HEAD`.
pub open spec fn is_file_method(method: Seq<char>) -> bool {
    method == "GET"@ || method == "HEAD"@
}

/// The first look at a request: a path that a proxy rule matches goes to the
/// proxy; otherwise a fresh cached response is sent; otherwise `GET` and
/// `HEAD` go to the file server and other methods get `405`.
pub fn begin_request(
    request: &HttpRequest,
    proxy: &ReverseProxy,
    cache: &mut ResponseCache,
    now: u64,
) -> (step: RequestStep)
    requires
        old(cache).wf(),
    ensures
        final(cache).wf(),
        final(cache).capacity() == old(cache).capacity(),
        final(cache).ttl() == old(cache).ttl(),
        match first_match(rules_view(proxy.rules@), request.path@) {
            Some(i) => step matches RequestStep::Proxy(j) && j == i && final(cache).entries()
                == old(cache).entries(),
            None => {
                let got = get_outcome(old(cache).entries(), request.path@, now, old(cache).ttl());
                &&& final(cache).entries() == got.1
                &&& match got.0 {
                    Some(v) => step matches RequestStep::Respond(r) && r@ == v,
                    None => if is_file_method(request.method@) {
                        step == (RequestStep::ServeFile { head: request.method@ == "HEAD"@ })
                    } else {
                        step matches RequestStep::Respond(r) && r@ == text_response(
                            405,
                            "405 method not allowed"@,
                        )
                    },
                }
            },
        },
{
    match proxy.find_rule(request.path.as_str()) {
        Some(i) => {
            return RequestStep::Proxy(i);
        },
        None => {},
    }
    match cache.get(request.path.as_str(), now) {
        Some(cached) => RequestStep::Respond(cached),
        None => {
            let method = chars_of(request.method.as_str());
            let is_get = chars_eq_str(&method, "GET");
            let is_head = chars_eq_str(&method, "HEAD");
            if is_get || is_head {
                RequestStep::ServeFile { head: is_head }
            } else {
                RequestStep::Respond(HttpResponse::method_not_allowed())
            }
        },
    }
}

/// The response after proxying: the proxy's response, or a bare `502` when
/// the request could not be proxied at all.
pub fn after_proxy(result: Result<HttpResponse, ProxyError>) -> (r: HttpResponse)
    ensures
        match result {
            Ok(resp) => r@ == resp@,
            Err(_) => r@ == new_response(502),
        },
{
    match result {
        Ok(response) => response,
        Err(_) => HttpResponse::new(502),
    }
}

/// The response after serving a file; a `200` answer to a `GET` is stored
/// in the cache under the request path at `now`.
pub fn after_serve(
    request: &HttpRequest,
    cache: &mut ResponseCache,
    response: HttpResponse,
    now: u64,
) -> (r: HttpResponse)
    requires
        old(cache).wf(),
    ensures
        r@ == response@,
        final(cache).wf(),
        final(cache).capacity() == old(cache).capacity(),
        final(cache).ttl() == old(cache).ttl(),
        if response.status_code == 200 && request.method@ == "GET"@ {
            let stored = final(cache).entries()[0].1;
            &&& final(cache).entries() == lru_after_put(
                old(cache).entries(),
                old(cache).capacity(),
                request.path@,
                stored,
            )
            &&& stored.response@ == response@
            &&& stored.created_at == now
        } else {
            final(cache).entries() == old(cache).entries()
        },
{
    let method = chars_of(request.method.as_str());
    if response.status_code == 200 && chars_eq_str(&method, "GET") {
        let copy = response.clone();
        let ghost stored = CacheEntry { response: copy, created_at: now };
        cache.put(request.path.clone(), copy, now);
        proof {
            crate::cache::lemma_put_then_found(
                old(cache).entries(),
                old(cache).capacity(),
                request.path@,
                stored,
            );
        }
    }
    response
}

/// The bytes of a body on the wire; a file body goes out twice when
/// `sendfile` is set.
pub open spec fn body_wire(body: Option<BodyView>, sendfile: bool) -> Seq<u8> {
    match body {
        None => Seq::empty(),
        Some(BodyView::Bytes(d)) => d,
        Some(BodyView::File(d, _)) => if sendfile {
            d + d
        } else {
            d
        },
    }
}

/// Everything written to the client for a response: the head, then the body.
pub open spec fn wire_view(r: ResponseView, sendfile: bool) -> Seq<u8> {
    encode_utf8(head_text(r)) + body_wire(r.body, sendfile)
}

/// Appends `data` to `out`.
fn append_bytes(out: &mut Vec<u8>, data: &Vec<u8>)
    ensures
        final(out)@ == old(out)@ + data@,
{
    let mut i: usize = 0;
    while i < data.len()
        invariant
            i <= data.len(),
            out@ == old(out)@ + data@.subrange(0, i as int),
        decreases data.len() - i,
    {
        out.push(data[i]);
        assert(data@.subrange(0, i + 1) =~= data@.subrange(0, i as int).push(data@[i as int]));
        i = i + 1;
    }
    assert(data@.subrange(0, data@.len() as int) =~= data@);
}

/// The bytes sent to the client for `response`.
pub fn wire_bytes(response: &HttpResponse, sendfile: bool) -> (b: Vec<u8>)
    ensures
        b@ == wire_view(response@, sendfile),
{
    let mut out = response.headers_bytes();
    match &response.body {
        None => {},
        Some(ResponseBody::Bytes(data)) => {
            append_bytes(&mut out, data);
        },
        Some(ResponseBody::File(file_data)) => {
            if sendfile {
                append_bytes(&mut out, &file_data.data);
            }
            append_bytes(&mut out, &file_data.data);
        },
    }
    out
}

/// A byte body goes out once, right after the head, whatever `sendfile`
/// says: the bytes sent are the encoded head followed by exactly the body.
/// A file body follows the head once, and once more when `sendfile` is set;
/// a response without a body sends its head alone.
pub proof fn lemma_body_on_wire(r: ResponseView, sendfile: bool)
    ensures
        r.body matches Some(BodyView::Bytes(d)) ==> wire_view(r, sendfile) == encode_utf8(
            head_text(r),
        ) + d,
        r.body matches Some(BodyView::Bytes(d)) ==> wire_view(r, true) == wire_view(r, false),
        r.body matches Some(BodyView::File(d, m)) ==> wire_view(r, sendfile) == encode_utf8(
            head_text(r),
        ) + d + (if sendfile {
            d
        } else {
            Seq::<u8>::empty()
        }),
        r.body is None ==> wire_view(r, sendfile) == encode_utf8(head_text(r)),
        wire_view(r, sendfile).len() >= encode_utf8(head_text(r)).len(),
        wire_view(r, sendfile).subrange(0, encode_utf8(head_text(r)).len() as int) == encode_utf8(
            head_text(r),
        ),
{
    let h = encode_utf8(head_text(r));
    match r.body {
        Some(BodyView::File(d, m)) => {
            if sendfile {
                assert(h + (d + d) =~= h + d + d);
            } else {
                assert(h + d =~= h + d + Seq::<u8>::empty());
            }
        },
        None => {
            assert(h + Seq::<u8>::empty() =~= h);
        },
        _ => {},
    }
    assert(wire_view(r, sendfile).subrange(0, h.len() as int) =~= h);
}

} // verus!
