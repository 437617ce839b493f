//! Request handling: routing, upstream dispatch with key failover, and the
//! shape of every response.
//!
//! Sockets are the caller's. What is decided here is which endpoint a request
//! is for, what goes upstream, what an upstream answer means for the key and
//! for the request, and what the client is told.

use vstd::prelude::*;
use vstd::string::*;
use vstd::utf8::encode_utf8;

use crate::affinity::{self, RequestBody, Stream};
use crate::config;
use crate::json;
use crate::pool::Reject;
use crate::text;
use crate::VERSION;

verus! {

/// The most bytes that a request body may have.
pub const MAX_BODY: usize = 16_777_216;

pub const UPSTREAM: &'static str = "https://ollama.com";

// ---------------------------------------------------------------------------
// Routing
// ---------------------------------------------------------------------------

/// `url` up to its first question mark, and what follows that.
pub open spec fn path_and_query(url: Seq<char>) -> (Seq<char>, Option<Seq<char>>) {
    let at = text::first_of(url, '?');
    if at == url.len() {
        (url, None)
    } else {
        (url.take(at), Some(url.skip(at + 1)))
    }
}

/// The parts of `kv` around its first equals sign.
pub open spec fn key_and_value(kv: Seq<char>) -> (Seq<char>, Seq<char>) {
    let at = text::first_of(kv, '=');
    if at == kv.len() {
        (kv, seq![])
    } else {
        (kv.take(at), kv.skip(at + 1))
    }
}

/// `kv` asks for a refresh.
pub open spec fn asks_refresh(kv: Seq<char>) -> bool {
    let (k, v) = key_and_value(kv);
    k == "refresh"@ && v != "0"@ && v != "false"@
}

/// One of `parts` asks for a refresh.
pub open spec fn any_asks_refresh(parts: Seq<Seq<char>>) -> bool {
    exists|i: int| 0 <= i < parts.len() && asks_refresh(#[trigger] parts[i])
}

/// `query` asks for a refresh.
pub open spec fn refresh_forced(query: Option<Seq<char>>) -> bool {
    query is Some && any_asks_refresh(text::pieces(query->0, '&'))
}

/// Which endpoint a request is for.
#[derive(Debug)]
pub enum Route {
    /// Per-key health.
    Keys,
    /// Per-key usage, newly fetched if `force`.
    Usage { force: bool },
    /// Liveness.
    Health,
    /// To the upstream at `sub_path`, on the OpenAI-compatible surface if
    /// `is_v1`.
    Proxy { sub_path: String, is_v1: bool },
    NotFound,
}

#[verifier::ext_equal]
pub enum RouteView {
    Keys,
    Usage { force: bool },
    Health,
    Proxy { sub_path: Seq<char>, is_v1: bool },
    NotFound,
}

impl View for Route {
    type V = RouteView;

    open spec fn view(&self) -> RouteView {
        match self {
            Route::Keys => RouteView::Keys,
            Route::Usage { force } => RouteView::Usage { force: *force },
            Route::Health => RouteView::Health,
            Route::Proxy { sub_path, is_v1 } => RouteView::Proxy {
                sub_path: sub_path@,
                is_v1: *is_v1,
            },
            Route::NotFound => RouteView::NotFound,
        }
    }
}

/// The endpoint at `path`, whatever the number of slashes that it starts with.
pub open spec fn route_of(path: Seq<char>, query: Option<Seq<char>>) -> RouteView {
    let p = text::without_leading(path, '/');
    if p == "_keys"@ {
        RouteView::Keys
    } else if p == "_usage"@ {
        RouteView::Usage { force: refresh_forced(query) }
    } else if p == "_health"@ {
        RouteView::Health
    } else if "api/"@.is_prefix_of(p) {
        RouteView::Proxy { sub_path: p, is_v1: false }
    } else if "v1/"@.is_prefix_of(p) {
        RouteView::Proxy { sub_path: p, is_v1: true }
    } else {
        RouteView::NotFound
    }
}

/// What is answered where there is no endpoint.
pub const NOT_FOUND: &'static str = "{\"error\":\"ollamux (key-rotating proxy for Ollama Cloud, https://ollama.com) serves only /api/*, /v1/*, /_keys, /_usage, /_health — this is not a local Ollama server and has no local models. If you meant a local Ollama, point your client at port 11434 instead; for Ollama Cloud, use /api/… or /v1/… here (models: GET /api/tags; per-key usage: GET /_usage).\"}";

/// Splits `url` into its path and its query.
pub fn split_url(url: &str) -> (r: (String, Option<String>))
    ensures
        r.0@ == path_and_query(url@).0,
        affinity::opt_chars(r.1) == path_and_query(url@).1,
{
    match text::find(url, '?') {
        Some(at) => {
            let cs = text::chars_of(url);
            let n: usize = cs.len();
            let path = text::string_of(&cs, 0, at);
            let query = text::string_of(&cs, at + 1, n);
            assert(path@ =~= url@.take(at as int));
            assert(query@ =~= url@.skip(at + 1));
            (path, Some(query))
        },
        None => (url.to_owned(), None),
    }
}

/// Whether `kv` asks for a refresh.
fn forces_refresh(kv: &str) -> (r: bool)
    ensures
        r == asks_refresh(kv@),
{
    match text::find(kv, '=') {
        Some(at) => {
            let cs = text::chars_of(kv);
            let n: usize = cs.len();
            let k = text::string_of(&cs, 0, at);
            let v = text::string_of(&cs, at + 1, n);
            assert(k@ =~= kv@.take(at as int));
            assert(v@ =~= kv@.skip(at + 1));
            text::same(k.as_str(), "refresh") && !text::same(v.as_str(), "0") && !text::same(
                v.as_str(),
                "false",
            )
        },
        None => {
            proof {
                reveal_strlit("0");
                reveal_strlit("false");
                assert("0"@.len() == 1);
                assert("false"@.len() == 5);
            }
            text::same(kv, "refresh")
        },
    }
}

/// Whether some part of `query` asks for a refresh.
fn query_forces_refresh(query: &str) -> (r: bool)
    ensures
        r == refresh_forced(Some(query@)),
{
    let parts = text::split(query, '&');
    let ghost all = text::pieces(query@, '&');
    assert(parts@.len() == text::views(parts@).len());
    let mut i: usize = 0;
    while i < parts.len()
        invariant
            text::views(parts@) == all,
            parts@.len() == all.len(),
            all == text::pieces(query@, '&'),
            i <= parts@.len(),
            forall|j: int| 0 <= j < i ==> !asks_refresh(#[trigger] all[j]),
        decreases parts@.len() - i,
    {
        assert(all[i as int] == parts@[i as int]@);
        if forces_refresh(parts[i].as_str()) {
            assert(asks_refresh(all[i as int]));
            return true;
        }
        i = i + 1;
    }
    false
}

/// Which endpoint a request for `path` and `query` is for.
pub fn route(path: &str, query: Option<&str>) -> (r: Route)
    ensures
        r@ == route_of(path@, config::opt_view(query)),
{
    let p = text::strip_leading(path, '/');
    if text::same(p, "_keys") {
        return Route::Keys;
    }
    if text::same(p, "_usage") {
        let force = match query {
            Some(q) => query_forces_refresh(q),
            None => false,
        };
        return Route::Usage { force };
    }
    if text::same(p, "_health") {
        return Route::Health;
    }
    if text::starts_with(p, "api/") {
        return Route::Proxy { sub_path: p.to_owned(), is_v1: false };
    }
    if text::starts_with(p, "v1/") {
        return Route::Proxy { sub_path: p.to_owned(), is_v1: true };
    }
    Route::NotFound
}

/// Upstream paths that need no credential.
pub open spec fn no_auth_path(path: Seq<char>) -> bool {
    path == "api/tags"@ || path == "api/version"@ || path == "v1/models"@
}

/// Whether the upstream answers `path` without a credential. Such a request is
/// tried once, takes no slot, and says nothing about any key.
pub fn is_no_auth_path(path: &str) -> (r: bool)
    ensures
        r == no_auth_path(path@),
{
    text::same(path, "api/tags") || text::same(path, "api/version") || text::same(path, "v1/models")
}

/// What a body says about streaming, on the OpenAI-compatible surface if
/// `is_v1`.
pub open spec fn streams(body: Option<affinity::BodyView>, is_v1: bool) -> bool {
    match body {
        None => false,
        Some(b) => match b.stream {
            Stream::Flag(on) => on,
            Stream::Absent => !is_v1,
            Stream::Other => false,
        },
    }
}

/// Whether the client asked for a streaming response: what the body says, else
/// the surface's default (the native surface streams, the OpenAI-compatible
/// one does not). A body that is not JSON does not stream.
pub fn wants_stream(body: Option<&RequestBody>, is_v1: bool) -> (r: bool)
    ensures
        r == streams(affinity::opt_body(body), is_v1),
{
    match body {
        None => false,
        Some(b) => match b.stream {
            Stream::Flag(on) => on,
            Stream::Absent => !is_v1,
            Stream::Other => false,
        },
    }
}

// ---------------------------------------------------------------------------
// What the client is told
// ---------------------------------------------------------------------------

/// An error as JSON, in the shape of the surface that the request came by.
pub open spec fn error_body(is_v1: bool, msg: Seq<char>, status: int) -> Seq<char> {
    if is_v1 {
        "{\"error\":{\"code\":\"ollamux_"@ + text::decimal(status as nat) + "\",\"message\":"@
            + json::quoted(msg) + ",\"param\":null,\"type\":\"ollamux_error\"}}"@
    } else {
        "{\"error\":"@ + json::quoted(msg) + "}"@
    }
}

/// An error as JSON, in the shape of the surface that the request came by.
///
/// The message in it reads back as `msg`.
pub fn error_json(is_v1: bool, msg: &str, status: u16) -> (r: String)
    ensures
        r@ == error_body(is_v1, msg@, status as int),
        json::string_value(encode_utf8(json::quoted(msg@))) == Some(msg@),
{
    if is_v1 {
        let mut s = "{\"error\":{\"code\":\"ollamux_".to_owned();
        s.append(text::to_decimal(status as u64).as_str());
        s.append("\",\"message\":");
        s.append(json::quote(msg).as_str());
        s.append(",\"param\":null,\"type\":\"ollamux_error\"}}");
        s
    } else {
        let mut s = "{\"error\":".to_owned();
        s.append(json::quote(msg).as_str());
        s.append("}");
        s
    }
}

/// The liveness report.
pub open spec fn health_body(ok: bool, keys: int, total_slots: int) -> Seq<char> {
    "{\"keys\":"@ + text::decimal(keys as nat) + ",\"ok\":"@ + (if ok {
        "true"@
    } else {
        "false"@
    }) + ",\"service\":\"ollamux\",\"total_slots\":"@ + text::decimal(total_slots as nat)
        + ",\"version\":\""@ + VERSION@ + "\"}"@
}

/// The liveness report: whether some key is up, and how much there is.
pub fn health_json(ok: bool, keys: usize, total_slots: u32) -> (r: String)
    ensures
        r@ == health_body(ok, keys as int, total_slots as int),
{
    let mut s = "{\"keys\":".to_owned();
    s.append(text::to_decimal(keys as u64).as_str());
    s.append(",\"ok\":");
    if ok {
        s.append("true");
    } else {
        s.append("false");
    }
    s.append(",\"service\":\"ollamux\",\"total_slots\":");
    s.append(text::to_decimal(total_slots as u64).as_str());
    s.append(",\"version\":\"");
    s.append(VERSION);
    s.append("\"}");
    s
}

/// A response that the proxy makes up.
#[derive(Debug)]
pub struct Reply {
    pub status: u16,
    pub body: String,
    /// Seconds that the client should wait, where that is known.
    pub retry_after_s: Option<u64>,
}

#[verifier::ext_equal]
pub struct ReplyView {
    pub status: int,
    pub body: Seq<char>,
    pub retry_after: Option<int>,
}

impl View for Reply {
    type V = ReplyView;

    open spec fn view(&self) -> ReplyView {
        ReplyView {
            status: self.status as int,
            body: self.body@,
            retry_after: match self.retry_after_s {
                Some(s) => Some(s as int),
                None => None,
            },
        }
    }
}

/// The error `msg` as a response.
pub open spec fn error_reply(
    is_v1: bool,
    msg: Seq<char>,
    status: int,
    retry_after: Option<int>,
) -> ReplyView {
    ReplyView { status, body: error_body(is_v1, msg, status), retry_after }
}

/// What a client is told whose body is too large.
pub const TOO_LARGE: &'static str = "request body exceeds ollamux's 16 MiB limit (bodies are buffered in memory so they can be replayed across key failover); reduce attachments/images or send the model a URL instead";

/// What a client is told whose body could not be read.
pub const UNREADABLE: &'static str = "ollamux failed to read the request body (client disconnected or sent a malformed/truncated request); retry the request";

/// The status that a request body of `len` bytes is refused with, if it is;
/// without a length it could not be read.
pub open spec fn body_refused(len: Option<usize>) -> Option<int> {
    match len {
        Some(n) => if n > MAX_BODY {
            Some(413)
        } else {
            None
        },
        None => Some(400),
    }
}

/// What is wrong with a request body of which `len` bytes were read, or which
/// could not be read.
pub fn check_body(len: Option<usize>, is_v1: bool) -> (r: Option<Reply>)
    ensures
        match len {
            Some(n) => if n > MAX_BODY {
                r is Some && r->0@ == error_reply(is_v1, TOO_LARGE@, 413, None)
            } else {
                r is None
            },
            None => r is Some && r->0@ == error_reply(is_v1, UNREADABLE@, 400, None),
        },
        match r {
            Some(reply) => body_refused(len) == Some(reply.status as int),
            None => body_refused(len) is None,
        },
{
    match len {
        Some(n) => if n > MAX_BODY {
            Some(Reply { status: 413, body: error_json(is_v1, TOO_LARGE, 413), retry_after_s: None })
        } else {
            None
        },
        None => Some(
            Reply { status: 400, body: error_json(is_v1, UNREADABLE, 400), retry_after_s: None },
        ),
    }
}

/// A request that is not admitted, as a response.
pub fn reject_reply(reject: &Reject, is_v1: bool) -> (r: Reply)
    ensures
        r@ == error_reply(
            is_v1,
            reject.reason@,
            reject.status as int,
            match reject.retry_after_s {
                Some(s) => Some(s as int),
                None => None,
            },
        ),
{
    Reply {
        status: reject.status,
        body: error_json(is_v1, reject.reason, reject.status),
        retry_after_s: reject.retry_after_s,
    }
}

/// The phrase that goes with a status.
pub open spec fn phrase(status: int) -> Seq<char> {
    if status == 200 {
        "OK"@
    } else if status == 201 {
        "Created"@
    } else if status == 202 {
        "Accepted"@
    } else if status == 204 {
        "No Content"@
    } else if status == 301 {
        "Moved Permanently"@
    } else if status == 302 {
        "Found"@
    } else if status == 304 {
        "Not Modified"@
    } else if status == 400 {
        "Bad Request"@
    } else if status == 401 {
        "Unauthorized"@
    } else if status == 402 {
        "Payment Required"@
    } else if status == 403 {
        "Forbidden"@
    } else if status == 404 {
        "Not Found"@
    } else if status == 408 {
        "Request Timeout"@
    } else if status == 413 {
        "Payload Too Large"@
    } else if status == 422 {
        "Unprocessable Entity"@
    } else if status == 429 {
        "Too Many Requests"@
    } else if status == 500 {
        "Internal Server Error"@
    } else if status == 502 {
        "Bad Gateway"@
    } else if status == 503 {
        "Service Unavailable"@
    } else if status == 504 {
        "Gateway Timeout"@
    } else {
        ""@
    }
}

/// The phrase that goes with a status, empty for one that is not common.
pub fn reason_phrase(status: u16) -> (r: &'static str)
    ensures
        r@ == phrase(status as int),
{
    match status {
        200 => "OK",
        201 => "Created",
        202 => "Accepted",
        204 => "No Content",
        301 => "Moved Permanently",
        302 => "Found",
        304 => "Not Modified",
        400 => "Bad Request",
        401 => "Unauthorized",
        402 => "Payment Required",
        403 => "Forbidden",
        404 => "Not Found",
        408 => "Request Timeout",
        413 => "Payload Too Large",
        422 => "Unprocessable Entity",
        429 => "Too Many Requests",
        500 => "Internal Server Error",
        502 => "Bad Gateway",
        503 => "Service Unavailable",
        504 => "Gateway Timeout",
        _ => "",
    }
}

// ---------------------------------------------------------------------------
// The upstream
// ---------------------------------------------------------------------------

/// The address of `sub_path` at the upstream `base`, with the query as it
/// came. An empty query is none.
pub open spec fn url_at(
    base: Seq<char>,
    sub_path: Seq<char>,
    query: Option<Seq<char>>,
) -> Seq<char> {
    match query {
        Some(q) => if q.len() > 0 {
            base + "/"@ + sub_path + "?"@ + q
        } else {
            base + "/"@ + sub_path
        },
        None => base + "/"@ + sub_path,
    }
}

/// The upstream's address without slashes at its end.
pub fn upstream_base(upstream: &str) -> (r: String)
    ensures
        r@ == text::without_trailing(upstream@, '/'),
{
    text::strip_trailing(upstream, '/').to_owned()
}

/// Whether requests to `upstream` may only go over HTTPS.
pub fn https_only(upstream: &str) -> (r: bool)
    ensures
        r == "https://"@.is_prefix_of(upstream@),
{
    text::starts_with(upstream, "https://")
}

/// The address that a request for `sub_path` and `query` goes to.
pub fn request_url(base: &str, sub_path: &str, query: Option<&str>) -> (r: String)
    ensures
        r@ == url_at(base@, sub_path@, config::opt_view(query)),
{
    let mut s = base.to_owned();
    s.append("/");
    s.append(sub_path);
    if let Some(q) = query {
        if q.unicode_len() > 0 {
            s.append("?");
            s.append(q);
        }
    }
    s
}

// ---------------------------------------------------------------------------
// Sizes
// ---------------------------------------------------------------------------

/// `n` brought between `lo` and `hi`.
pub open spec fn clamped(n: int, lo: int, hi: int) -> int {
    if n < lo {
        lo
    } else if n > hi {
        hi
    } else {
        n
    }
}

/// How many requests are handled at once, for a pool with `total_slots`.
pub fn worker_count(total_slots: u32) -> (r: usize)
    ensures
        r == clamped(total_slots as int, 4, 64),
{
    if total_slots < 4 {
        4
    } else if total_slots > 64 {
        64
    } else {
        total_slots as usize
    }
}

/// `start`, doubled until it is at least `n`.
pub open spec fn doubled_up_to(n: int, start: nat) -> nat
    decreases
            (if n > start {
                n - start
            } else {
                0
            }),
{
    if start >= n || start == 0 {
        start
    } else {
        doubled_up_to(n, 2 * start)
    }
}

/// How many idle upstream connections are kept in all and per host, for a pool
/// with `total_slots`: one per slot (four at least) for the one host, and
/// twice the next power of two in all.
pub fn idle_connections(total_slots: u32) -> (r: (u64, u64))
    ensures
        r.1 == (if total_slots < 4 {
            4
        } else {
            total_slots as int
        }),
        r.0 == 2 * doubled_up_to(r.1 as int, 1),
{
    let per_host: u64 = if total_slots < 4 {
        4
    } else {
        total_slots as u64
    };
    let mut n: u64 = 1;
    while n < per_host
        invariant
            1 <= n <= 0x2_0000_0000,
            per_host <= 0xffff_ffff,
            doubled_up_to(per_host as int, n as nat) == doubled_up_to(per_host as int, 1),
        decreases
                (if per_host > n {
                    per_host - n
                } else {
                    0
                }),
    {
        n = 2 * n;
    }
    (2 * n, per_host)
}

// ---------------------------------------------------------------------------
// Laws
// ---------------------------------------------------------------------------

/// A target is split at its first question mark: path, mark and query make up
/// the whole, and the path holds none.
pub proof fn law_targets_are_split(url: Seq<char>)
    ensures
        !path_and_query(url).0.contains('?'),
        path_and_query(url).1 is None ==> path_and_query(url).0 == url,
        path_and_query(url).1 matches Some(q) ==> url == path_and_query(url).0 + seq!['?'] + q,
        path_and_query(url).1 is Some <==> url.contains('?'),
{
    text::law_first_is_first(url, '?');
    let at = text::first_of(url, '?');
    if at < url.len() {
        assert(url =~= url.take(at) + seq!['?'] + url.skip(at + 1));
        let path = url.take(at);
        if path.contains('?') {
            let i = choose|i: int| 0 <= i < path.len() && path[i] == '?';
            assert(url[i] == '?');
        }
    } else if url.contains('?') {
        let i = choose|i: int| 0 <= i < url.len() && url[i] == '?';
        assert(url[i] == '?');
    }
}

/// Any number of slashes may stand before a path. What starts with `api/` or
/// `v1/` is proxied under that very path, the latter as OpenAI-compatible.
pub proof fn law_proxied_paths(n: nat, rest: Seq<char>, query: Option<Seq<char>>)
    ensures
        route_of(Seq::new(n, |i: int| '/') + ("api/"@ + rest), query) == (RouteView::Proxy {
            sub_path: "api/"@ + rest,
            is_v1: false,
        }),
        route_of(Seq::new(n, |i: int| '/') + ("v1/"@ + rest), query) == (RouteView::Proxy {
            sub_path: "v1/"@ + rest,
            is_v1: true,
        }),
{
    reveal_strlit("api/");
    reveal_strlit("v1/");
    reveal_strlit("_keys");
    reveal_strlit("_usage");
    reveal_strlit("_health");
    let a = "api/"@ + rest;
    let b = "v1/"@ + rest;
    text::law_leading_are_dropped(n, a, '/');
    text::law_leading_are_dropped(n, b, '/');
    assert(a[0] == 'a');
    assert(b[0] == 'v');
    assert("_keys"@[0] == '_' && "_usage"@[0] == '_' && "_health"@[0] == '_');
    assert("api/"@[0] == 'a');
    assert("api/"@ =~= a.take("api/"@.len() as int));
    assert("v1/"@ =~= b.take("v1/"@.len() as int));
    if "api/"@.is_prefix_of(b) {
        assert("api/"@[0] == b[0]);
    }
}

/// The three endpoints of the proxy itself, and that there are no others: a
/// path that is none of them and starts with neither prefix is not found.
pub proof fn law_own_endpoints(n: nat, path: Seq<char>, query: Option<Seq<char>>)
    requires
        path.len() > 0 ==> path[0] != '/',
    ensures
        ({
            let r = route_of(Seq::new(n, |i: int| '/') + path, query);
            &&& path == "_keys"@ ==> r == RouteView::Keys
            &&& path == "_usage"@ ==> r == (RouteView::Usage { force: refresh_forced(query) })
            &&& path == "_health"@ ==> r == RouteView::Health
            &&& path != "_keys"@ && path != "_usage"@ && path != "_health"@
                && !"api/"@.is_prefix_of(path) && !"v1/"@.is_prefix_of(path) ==> r
                == RouteView::NotFound
        }),
{
    reveal_strlit("_keys");
    reveal_strlit("_usage");
    reveal_strlit("_health");
    assert("_keys"@.len() == 5 && "_usage"@.len() == 6 && "_health"@.len() == 7);
    text::law_leading_are_dropped(n, path, '/');
}

/// A query forces a refresh if one of its parameters does: `refresh` alone, or
/// with any value but `0` and `false`.
pub proof fn law_forced_refreshes(a: Seq<char>, b: Seq<char>, v: Seq<char>)
    requires
        !v.contains('&'),
    ensures
        !refresh_forced(None),
        refresh_forced(Some(a + seq!['&'] + b)) <==> refresh_forced(Some(a)) || refresh_forced(
            Some(b),
        ),
        refresh_forced(Some("refresh"@)),
        refresh_forced(Some("refresh="@ + v)) <==> v != "0"@ && v != "false"@,
{
    reveal_strlit("refresh");
    reveal_strlit("refresh=");
    reveal_strlit("0");
    reveal_strlit("false");
    text::law_splitting(a, b, '&');
    let x = text::pieces(a, '&');
    let y = text::pieces(b, '&');
    let all = x + y;
    if any_asks_refresh(all) {
        let i = choose|i: int| 0 <= i < all.len() && asks_refresh(#[trigger] all[i]);
        if i < x.len() {
            assert(asks_refresh(x[i]));
        } else {
            assert(asks_refresh(y[i - x.len()]));
        }
    }
    if any_asks_refresh(x) {
        let i = choose|i: int| 0 <= i < x.len() && asks_refresh(#[trigger] x[i]);
        assert(all[i] == x[i]);
    }
    if any_asks_refresh(y) {
        let i = choose|i: int| 0 <= i < y.len() && asks_refresh(#[trigger] y[i]);
        assert(all[x.len() + i] == y[i]);
    }
    let bare = "refresh"@;
    assert(!bare.contains('&'));
    text::law_splitting(bare, seq![], '&');
    text::lemma_first_of(bare, '=', 7);
    assert(seq![bare][0] == bare);
    assert(asks_refresh(bare)) by {
        assert(Seq::<char>::empty() != "0"@) by {
            assert("0"@.len() == 1);
        }
        assert(Seq::<char>::empty() != "false"@) by {
            assert("false"@.len() == 5);
        }
    }
    let kv = "refresh="@ + v;
    assert(!kv.contains('&')) by {
        if kv.contains('&') {
            let i = choose|i: int| 0 <= i < kv.len() && kv[i] == '&';
            if i >= 8 {
                assert(v[i - 8] == '&');
            }
        }
    }
    text::law_splitting(kv, seq![], '&');
    text::lemma_first_of(kv, '=', 7);
    assert(kv.take(7) =~= "refresh"@);
    assert(kv.skip(8) =~= v);
    assert(seq![kv][0] == kv);
    assert(asks_refresh(kv) <==> v != "0"@ && v != "false"@);
}

/// A parameter under another name forces nothing.
pub proof fn law_other_parameters_force_nothing(name: Seq<char>, v: Seq<char>)
    requires
        !name.contains('&'),
        !name.contains('='),
        !v.contains('&'),
        name != "refresh"@,
    ensures
        !refresh_forced(Some(name + seq!['='] + v)),
        !refresh_forced(Some(name)),
{
    let kv = name + seq!['='] + v;
    let n = name.len() as int;
    assert forall|i: int| 0 <= i < n implies #[trigger] kv[i] != '=' by {
        assert(kv[i] == name[i]);
    }
    assert(!kv.contains('&')) by {
        if kv.contains('&') {
            let i = choose|i: int| 0 <= i < kv.len() && kv[i] == '&';
            if i < n {
                assert(name[i] == '&');
            } else if i > n {
                assert(v[i - n - 1] == '&');
            }
        }
    }
    text::law_splitting(kv, seq![], '&');
    text::law_splitting(name, seq![], '&');
    text::lemma_first_of(kv, '=', n);
    assert forall|i: int| 0 <= i < n implies #[trigger] name[i] != '=' by {
        assert(name.contains(name[i]));
    }
    text::lemma_first_of(name, '=', n);
    assert(kv.take(n) =~= name);
}

/// A request streams if it says so, and does not if it says so; if it says
/// nothing, the native surface streams and the other does not. A body that is
/// not JSON does not stream.
pub proof fn law_who_streams(b: affinity::BodyView, is_v1: bool)
    ensures
        !streams(None, is_v1),
        b.stream == Stream::Flag(true) ==> streams(Some(b), is_v1),
        b.stream == Stream::Flag(false) ==> !streams(Some(b), is_v1),
        b.stream == Stream::Other ==> !streams(Some(b), is_v1),
        b.stream == Stream::Absent ==> (streams(Some(b), is_v1) <==> !is_v1),
{
}

/// An error says the message, quoted, in the shape of the surface: under
/// `error` itself, or under its `message` with the status as a code.
pub proof fn law_errors_have_the_shape_of_the_surface(
    msg: Seq<char>,
    status: int,
    is_v1: bool,
    retry_after: Option<int>,
)
    requires
        status >= 0,
    ensures
        error_body(false, msg, status) == "{\"error\":"@ + json::quoted(msg) + "}"@,
        error_body(true, msg, status) == "{\"error\":{\"code\":\"ollamux_"@ + text::decimal(
            status as nat,
        ) + "\",\"message\":"@ + json::quoted(msg)
            + ",\"param\":null,\"type\":\"ollamux_error\"}}"@,
        error_reply(is_v1, msg, status, retry_after).status == status,
        error_reply(is_v1, msg, status, retry_after).body == error_body(is_v1, msg, status),
        error_reply(is_v1, msg, status, retry_after).retry_after == retry_after,
{
}

/// A request goes to its own path below the upstream, with its query behind it
/// as it came; an empty query is none.
pub proof fn law_requests_keep_path_and_query(
    base: Seq<char>,
    sub_path: Seq<char>,
    q: Seq<char>,
)
    ensures
        url_at(base, sub_path, None) == base + "/"@ + sub_path,
        q.len() == 0 ==> url_at(base, sub_path, Some(q)) == url_at(base, sub_path, None),
        q.len() > 0 ==> url_at(base, sub_path, Some(q)) == url_at(base, sub_path, None) + "?"@ + q,
{
}

/// What is clamped lies within its bounds, and is left alone if it does.
pub proof fn law_clamping(n: int, lo: int, hi: int)
    requires
        lo <= hi,
    ensures
        lo <= clamped(n, lo, hi) <= hi,
        lo <= n <= hi ==> clamped(n, lo, hi) == n,
        n < lo ==> clamped(n, lo, hi) == lo,
        n > hi ==> clamped(n, lo, hi) == hi,
{
}

/// Doubling stops at the first value that is large enough.
pub proof fn law_doubling_stops_in_time(n: int, start: nat)
    requires
        start >= 1,
    ensures
        doubled_up_to(n, start) >= n,
        start >= n ==> doubled_up_to(n, start) == start,
        start < n ==> doubled_up_to(n, start) < 2 * n,
        exists|k: nat| doubled_up_to(n, start) == start * #[trigger] vstd::arithmetic::power2::pow2(k),
    decreases
            (if n > start {
                n - start
            } else {
                0
            }),
{
    vstd::arithmetic::power2::lemma2_to64();
    if start < n {
        law_doubling_stops_in_time(n, 2 * start);
        let k = choose|k: nat|
            doubled_up_to(n, 2 * start) == (2 * start)
                * #[trigger] vstd::arithmetic::power2::pow2(k);
        vstd::arithmetic::power2::lemma_pow2_unfold((k + 1) as nat);
        assert(start * vstd::arithmetic::power2::pow2((k + 1) as nat) == (2 * start)
            * vstd::arithmetic::power2::pow2(k)) by (nonlinear_arith)
            requires
                vstd::arithmetic::power2::pow2((k + 1) as nat) == 2
                    * vstd::arithmetic::power2::pow2(k),
        ;
    } else {
        assert(doubled_up_to(n, start) == start * vstd::arithmetic::power2::pow2(0));
    }
}

/// A body is refused with 413 beyond 16 MiB, with 400 where it could not be
/// read, and not at all otherwise.
pub proof fn law_refused_bodies(len: Option<usize>)
    ensures
        body_refused(len) == (match len {
            None => Some(400int),
            Some(n) => if n > 16 * 1024 * 1024 {
                Some(413int)
            } else {
                None
            },
        }),
{
}

/// The liveness report says whether a key is up, how many keys and how many
/// slots there are, and which version answers.
pub proof fn law_health_reports(keys: nat, total_slots: nat)
    ensures
        health_body(true, keys as int, total_slots as int) == "{\"keys\":"@ + text::decimal(keys)
            + ",\"ok\":"@ + "true"@ + ",\"service\":\"ollamux\",\"total_slots\":"@ + text::decimal(
            total_slots,
        ) + ",\"version\":\""@ + VERSION@ + "\"}"@,
        health_body(false, keys as int, total_slots as int) == "{\"keys\":"@ + text::decimal(keys)
            + ",\"ok\":"@ + "false"@ + ",\"service\":\"ollamux\",\"total_slots\":"@
            + text::decimal(total_slots) + ",\"version\":\""@ + VERSION@ + "\"}"@,
{
}

} // verus!
