//! Whole requests against a scripted upstream, without sockets: the library
//! makes every decision, and this file only carries bytes.

use ollamux::affinity::RequestBody;
use ollamux::exchange::{
    classify, settled_status, Action, Delivery, Exchange, Failure, Verdict, MAX_ATTEMPTS,
};
use ollamux::framing::{stream_head, stream_step};
use ollamux::headers::{
    curated_response_headers, reply_headers, request_headers, response_headers, usage_headers,
};
use ollamux::pool::{Admission, KeyInfo, Pool, State, ALL_DEAD};
use ollamux::proxy::{
    check_body, health_json, request_url, route, split_url, wants_stream, Route, NOT_FOUND,
};
use ollamux::usage::{
    judge_response, FetchError, KeyUsage, ModelUsage, Share, Step, UsagePayload, UsageSnapshot,
    UsageTracker, UsageWindow,
};

const SEC: u64 = 1_000_000_000;

/// What the upstream answers to a path (with query) and a credential; an error
/// if it cannot be reached.
type Script = Box<dyn FnMut(&str, Option<&str>) -> Result<(u16, String), String>>;

#[derive(Clone)]
struct Recorded {
    path_with_query: String,
    auth: Option<String>,
}

struct Response {
    status: u16,
    body: String,
    headers: Vec<(String, String)>,
    /// The head of a streamed response.
    head: Option<String>,
}

struct Proxy {
    pool: Pool,
    usage: UsageTracker,
    script: Script,
    recorded: Vec<Recorded>,
    now: u64,
}

fn pool_with(keys: &[(&str, u32)]) -> Pool {
    Pool::new(
        keys.iter().map(|(k, c)| (k.to_string(), *c)).collect(),
        32,
        false,
    )
}

fn header_value(headers: &[(String, String)], name: &str) -> Option<String> {
    headers
        .iter()
        .find(|(n, _)| n.eq_ignore_ascii_case(name))
        .map(|(_, v)| v.clone())
}

fn json(text: &str) -> serde_json::Value {
    serde_json::from_str(text).unwrap()
}

fn share(f: f64) -> Share {
    Share {
        raw: f.to_bits(),
        permille: (f * 1000.0).clamp(0.0, 1000.0) as u32,
        pct_x10: (f.clamp(0.0, 1.0) * 1000.0).round() as u32,
    }
}

/// Reads the parts of a usage payload that these tests write.
fn decode(body: &str) -> Option<UsagePayload> {
    let value: serde_json::Value = serde_json::from_str(body).ok()?;
    let window = |name: &str| UsageWindow {
        usage: value["limits"][name]["usage"].as_f64().map(share),
        models: value["limits"][name]["models"]
            .as_array()
            .map(|models| {
                models
                    .iter()
                    .map(|m| ModelUsage {
                        name: m["name"].as_str().unwrap_or_default().to_string(),
                        request_count: m["request_count"].as_u64().unwrap_or(0),
                    })
                    .collect()
            })
            .unwrap_or_default(),
    };
    Some(UsagePayload {
        session: window("session"),
        weekly: window("weekly"),
        cost: value["activity"]["cost"].as_str().map(str::to_string),
    })
}

impl Proxy {
    fn new(
        pool: Pool,
        script: impl FnMut(&str, Option<&str>) -> Result<(u16, String), String> + 'static,
    ) -> Proxy {
        Proxy {
            pool,
            usage: UsageTracker::new("http://upstream"),
            script: Box::new(script),
            recorded: Vec::new(),
            now: SEC,
        }
    }

    fn unreachable(pool: Pool) -> Proxy {
        Proxy::new(pool, |_, _| Err("connection refused".to_string()))
    }

    fn call(
        &mut self,
        url: &str,
        headers: &[(String, String)],
    ) -> Result<(u16, String), String> {
        let path = url.strip_prefix("http://upstream").unwrap().to_string();
        let auth = header_value(headers, "authorization");
        self.recorded.push(Recorded {
            path_with_query: path.clone(),
            auth: auth.clone(),
        });
        (self.script)(&path, auth.as_deref())
    }

    fn own(status: u16, body: String, retry_after_s: Option<u64>) -> Response {
        Response {
            status,
            body,
            headers: reply_headers(retry_after_s),
            head: None,
        }
    }

    fn fetch_round(&mut self) {
        let mut fetched = Vec::new();
        for key in 0..self.pool.len() {
            let headers = usage_headers(self.pool.secret_of(key));
            let url = self.usage.url();
            fetched.push(Some(match self.call(&url, &headers) {
                Ok((status, body)) => judge_response(status, decode(&body)),
                Err(e) => Err(FetchError::Network(e)),
            }));
        }
        self.usage.finish(&mut self.pool, fetched, self.now);
    }

    fn info(&mut self) -> Vec<KeyInfo> {
        self.pool.info(self.now)
    }

    fn handle(&mut self, url: &str, body: &str) -> Response {
        let (path, query) = split_url(url);
        match route(&path, query.as_deref()) {
            Route::Keys => panic!("ask for the report itself"),
            Route::Usage { force } => {
                let step = if force {
                    self.usage.refresh(self.now)
                } else {
                    self.usage.get(self.now)
                };
                match step {
                    Step::Fetch => self.fetch_round(),
                    Step::Serve => {}
                    Step::Wait => panic!("no round is under way"),
                }
                Proxy::own(200, String::new(), None)
            }
            Route::Health => {
                let ok = self.pool.healthy_any(self.now);
                let body = health_json(ok, self.pool.len(), self.pool.total_slots());
                Proxy::own(200, body, None)
            }
            Route::NotFound => Proxy::own(404, NOT_FOUND.to_string(), None),
            Route::Proxy { sub_path, is_v1 } => {
                self.proxy(&sub_path, query.as_deref(), is_v1, body)
            }
        }
    }

    fn proxy(
        &mut self,
        sub_path: &str,
        query: Option<&str>,
        is_v1: bool,
        body: &str,
    ) -> Response {
        if let Some(reply) = check_body(Some(body.len()), is_v1) {
            return Proxy::own(reply.status, reply.body, reply.retry_after_s);
        }
        let parsed = RequestBody::parse(body.as_bytes());
        let streaming = wants_stream(parsed.as_ref(), is_v1);
        let mut exchange = Exchange::new(sub_path, is_v1, parsed.as_ref());
        let url = request_url("http://upstream", sub_path, query);
        let mut answer = (0, String::new());
        let mut action = exchange.begin(&mut self.pool, self.now);
        loop {
            action = match action {
                Action::Wait => {
                    self.now += exchange.pause(self.now);
                    exchange.wake(&mut self.pool, self.now)
                }
                Action::Send => {
                    let secret = exchange.key().map(|k| self.pool.secret_of(k).to_string());
                    let client = vec![("Content-Type".to_string(), "application/json".to_string())];
                    let headers = request_headers(&client, secret.as_deref());
                    match self.call(&url, &headers) {
                        Ok((status, text)) => {
                            answer = (status, text);
                            if answer.0 < 400 {
                                return self.relay(exchange, answer, streaming);
                            }
                            let failure =
                                Failure::answered(answer.0, None, answer.1.as_bytes());
                            exchange.fail(&mut self.pool, "http://upstream", failure, self.now)
                        }
                        Err(e) => exchange.fail(
                            &mut self.pool,
                            "http://upstream",
                            Failure::Network(e),
                            self.now,
                        ),
                    }
                }
                Action::Relay => return self.relay(exchange, answer, false),
                Action::Reply(reply) => {
                    exchange.close(&mut self.pool);
                    return Proxy::own(reply.status, reply.body, reply.retry_after_s);
                }
            };
        }
    }

    fn relay(&mut self, exchange: Exchange, answer: (u16, String), streaming: bool) -> Response {
        let served = exchange.served(&self.pool);
        let relayed = curated_response_headers(&vec![(
            "content-type".to_string(),
            vec!["application/json".to_string()],
        )]);
        let status = answer.0;
        let response = if streaming {
            let mut bytes = Vec::new();
            for part in answer.1.as_bytes().chunks(5) {
                bytes.extend(stream_step(false, Some(part)).bytes);
            }
            bytes.extend(stream_step(false, Some(&[])).bytes);
            Response {
                status,
                body: dechunk(&bytes),
                headers: response_headers(&relayed, &served),
                head: Some(stream_head(status, false, &relayed, &served)),
            }
        } else {
            Response {
                status,
                body: answer.1,
                headers: response_headers(&relayed, &served),
                head: None,
            }
        };
        exchange.deliver(&mut self.pool, settled_status(Delivery::Complete, status));
        response
    }
}

/// A client's reading of a chunked body.
fn dechunk(bytes: &[u8]) -> String {
    let mut rest = bytes;
    let mut body = Vec::new();
    loop {
        let at = rest.windows(2).position(|w| w == b"\r\n").unwrap();
        let size = usize::from_str_radix(std::str::from_utf8(&rest[..at]).unwrap(), 16).unwrap();
        rest = &rest[at + 2..];
        if size == 0 {
            assert_eq!(rest, b"\r\n");
            return String::from_utf8(body).unwrap();
        }
        body.extend_from_slice(&rest[..size]);
        assert_eq!(&rest[size..size + 2], b"\r\n");
        rest = &rest[size + 2..];
    }
}

fn identified(r: &Response) -> bool {
    header_value(&r.headers, "x-ollamux").is_some_and(|v| v.contains("ollamux/"))
}

#[test]
fn keys_health_and_404_endpoints() {
    let mut up = Proxy::new(pool_with(&[("omk-abcd1234", 1)]), |_, _| {
        Ok((200, "{}".to_string()))
    });
    let info = up.info();
    assert_eq!(info.len(), 1);
    assert_eq!(info[0].suffix, "1234");
    assert_eq!(info[0].concurrency, 1);
    assert_eq!(info[0].state, State::Up);
    // The full secret must never appear.
    assert!(!format!("{info:?}").contains("omk-abcd1234"));

    let r = up.handle("/_health", "");
    assert_eq!(r.status, 200);
    assert!(r.body.contains("\"ok\":true"), "health body: {}", r.body);
    let health = json(&r.body);
    assert_eq!(health["service"], "ollamux");
    assert_eq!(health["version"], ollamux::VERSION);

    let r = up.handle("/nonsense", "");
    assert_eq!(r.status, 404);
    assert!(r.body.contains("not a local Ollama"));
    assert!(r.body.contains("Ollama Cloud"));
    assert!(r.body.contains("11434"));
    assert!(r.body.contains("/api/*"));
}

#[test]
fn all_responses_carry_identity_header() {
    let mut up = Proxy::new(pool_with(&[("omk-ident001", 1)]), |path, _| {
        if path.starts_with("/api/generate") {
            Ok((200, "line1\nline2\n".to_string()))
        } else {
            Ok((404, r#"{"error":"upstream 404"}"#.to_string()))
        }
    });
    for path in ["/_health", "/nonsense", "/api/tags", "/_doesnotexist"] {
        let r = up.handle(path, "");
        assert!(identified(&r), "GET {path} must carry the identity header");
    }
    let r = up.handle("/api/generate", r#"{"model":"x","stream":true}"#);
    assert_eq!(r.status, 200);
    assert_eq!(r.body, "line1\nline2\n");
    assert!(r.head.unwrap().contains("X-Ollamux: ollamux/"));

    let r = up.handle("/api/show", r#"{"model":"x"}"#);
    assert_eq!(r.status, 404, "upstream 404 is not a key signal; relayed");
    assert!(identified(&r));
    assert!(r.body.contains("upstream 404"));
}

#[test]
fn no_auth_paths_skip_credentials_and_slots() {
    let mut up = Proxy::new(pool_with(&[("omk-notags01", 1)]), |path, _| {
        assert!(path.starts_with("/api/tags"), "unexpected path {path}");
        Ok((200, r#"{"models":[]}"#.to_string()))
    });
    let r = up.handle("/api/tags", "");
    assert_eq!(r.status, 200);
    assert!(
        header_value(&r.headers, "x-ollamux-key").is_none(),
        "no-auth responses must not claim a key"
    );
    assert_eq!(up.recorded.len(), 1);
    assert!(
        up.recorded[0].auth.is_none(),
        "/api/tags must be sent without an Authorization header"
    );
    assert_eq!(up.info()[0].state, State::Up);
    assert_eq!(up.info()[0].successes, 0);

    // Even with every key dead, and whatever the upstream answers.
    let mut up = Proxy::new(pool_with(&[("omk-notags02", 1)]), |_, _| {
        Ok((401, "Unauthorized".to_string()))
    });
    up.pool.mark_dead(0, "401");
    let r = up.handle("/v1/models", "");
    assert_eq!((r.status, r.body.as_str()), (401, "Unauthorized"));
    assert_eq!(up.info()[0].fails, 1);
}

#[test]
fn no_auth_failure_is_502_at_once() {
    let mut up = Proxy::unreachable(pool_with(&[("omk-notags03", 1)]));
    let r = up.handle("/api/version", "");
    assert_eq!(r.status, 502);
    assert_eq!(up.recorded.len(), 1);
    assert_eq!(
        json(&r.body)["error"],
        "ollamux could not reach the upstream (http://upstream): network: connection refused. Check network access and per-key state via GET /_keys; no automatic retry applies to this endpoint — repeat the request."
    );
}

#[test]
fn query_strings_are_forwarded() {
    let mut up = Proxy::new(pool_with(&[("omk-query0001", 1)]), |_, _| {
        Ok((200, "{}".to_string()))
    });
    up.handle("/api/tags?foo=bar&z=1", "");
    assert_eq!(up.recorded.len(), 1);
    assert_eq!(
        up.recorded[0].path_with_query, "/api/tags?foo=bar&z=1",
        "query string must not be dropped"
    );
}

#[test]
fn relayed_4xx_bodies_are_verbatim() {
    let body_lines = "x".repeat(600); // more than the snippet
    let payload = format!(r#"{{"error":"{body_lines}"}}"#);
    let mut up = Proxy::new(pool_with(&[("omk-passthru1", 1)]), move |_, _| {
        Ok((400, payload.clone()))
    });
    let r = up.handle("/api/generate", r#"{"model":"x"}"#);
    assert_eq!(r.status, 400);
    assert!(
        r.body.contains(&"x".repeat(600)),
        "relayed body must not be truncated (len {})",
        r.body.len()
    );
    // Status relayed is not a key-health signal: key stays up.
    let info = up.info();
    assert_eq!(info[0].state, State::Up);
    assert_eq!((info[0].successes, info[0].fails), (0, 0));
}

#[test]
fn surface_error_shapes_on_total_failure() {
    let mut up = Proxy::unreachable(pool_with(&[("omk-shape0001", 1)]));
    let r = up.handle("/api/chat", r#"{"model":"x"}"#);
    assert_eq!(r.status, 502, "body: {}", r.body);
    let v = json(&r.body);
    assert!(v["error"].is_string());
    assert!(v["error"].as_str().unwrap().contains("/_keys"));
    assert_eq!(
        v["error"],
        "ollamux exhausted all 3 failover attempt(s) against http://upstream; last error: network: connection refused. Per-key state: GET /_keys. The keys each cool down and recover automatically, so retrying later may succeed."
    );
    assert_eq!(up.recorded.len(), MAX_ATTEMPTS);

    let r = up.handle("/v1/chat/completions", r#"{"model":"x"}"#);
    assert_eq!(r.status, 502, "body: {}", r.body);
    let v = json(&r.body);
    assert!(v["error"]["message"].is_string());
    assert!(v["error"]["message"].as_str().unwrap().contains("/_keys"));
    let info = up.info();
    assert_eq!(info[0].in_use, 0, "the slot comes back");
    assert_eq!(info[0].fails, 0, "no answer is no mark against the key");
}

#[test]
fn rate_limited_key_rotates_and_cools() {
    let mut calls = 0;
    let mut up = Proxy::new(
        pool_with(&[("omk-cool00001", 2), ("omk-cool00002", 2)]),
        move |_, _| {
            calls += 1;
            if calls == 1 {
                Ok((429, r#"{"error":"rate limited"}"#.to_string()))
            } else {
                Ok((200, r#"{"ok":true}"#.to_string()))
            }
        },
    );
    let r = up.handle("/api/generate", r#"{"model":"x"}"#);
    assert_eq!(r.status, 200, "retry on second key must succeed");
    let info = up.info();
    assert_eq!(info.len(), 2);
    assert!(
        info.iter().any(|k| k.state == State::Cooldown),
        "the 429'd key must be cooling"
    );

    // Pool-level: first key cooled, second serves.
    let mut pool = pool_with(&[("omk-cool00003", 1), ("omk-cool00004", 1)]);
    let key0 = match pool.admit_one(SEC, 0) {
        Ok(Admission::Granted(permit)) => {
            let key = permit.key();
            pool.mark_cooldown(key, SEC / 20, "429 rate limited", 0);
            pool.release(permit);
            key
        }
        other => panic!("expected a slot, got {other:?}"),
    };
    match pool.admit_one(SEC, 0) {
        Ok(Admission::Granted(permit)) => {
            assert_ne!(
                key0,
                permit.key(),
                "failover must rotate to the healthy key"
            )
        }
        other => panic!("expected a slot, got {other:?}"),
    }
}

#[test]
fn all_dead_surfaces_403_hermetically() {
    let mut up = Proxy::new(pool_with(&[("omk-dead00001", 1)]), |_, _| {
        Ok((401, "Unauthorized".to_string()))
    });
    let r = up.handle("/api/chat", r#"{"model":"x"}"#);
    assert_eq!(r.status, 403); // all keys dead after the 401
    let info = up.info();
    assert_eq!(info[0].state, State::Dead);
    assert_eq!(
        info[0].last_error.as_deref(),
        Some("upstream says unauthorized")
    );
    assert!(r.body.contains("restart"), "403 must mention restart");
    assert!(r.body.contains("/_keys"), "403 must point at /_keys");
    assert_eq!(json(&r.body)["error"], ALL_DEAD);
}

#[test]
fn the_report_never_holds_a_secret() {
    for (status, noted) in [
        (500, "upstream 500"),
        (429, "429"),
        (401, "upstream says unauthorized"),
    ] {
        let mut up = Proxy::new(pool_with(&[("omk-secret1234", 1)]), move |_, auth| {
            Ok((status, format!("error with {}", auth.unwrap_or_default())))
        });
        let r = up.handle("/api/chat", r#"{"model":"x"}"#);
        assert_ne!(r.status, 200);
        assert!(!r.body.contains("secret1234"), "told the client: {}", r.body);
        let asked = up.recorded.len();
        let info = up.info();
        assert_eq!(info[0].index, 0);
        assert_eq!(info[0].suffix, "1234");
        assert!(info[0].usage.is_none());
        assert_eq!(info[0].last_error.as_deref(), Some(noted));
        assert!(!format!("{info:?}").contains("omk-secret1234"));
        assert_eq!(up.recorded.len(), asked, "a report asks nobody");
    }
}

#[test]
fn a_spent_failover_says_why_the_last_attempt_failed() {
    let names: Vec<String> = (0..MAX_ATTEMPTS).map(|i| format!("omk-spent{i:04}")).collect();
    let keys: Vec<(&str, u32)> = names.iter().map(|n| (n.as_str(), 1)).collect();
    for (status, said, error) in [
        (401, "bad key", "unauthorized: bad key"),
        (403, "Unauthorized", "unauthorized: Unauthorized"),
        (429, "slow down", "429: slow down"),
        (503, "busy", "upstream 503"),
    ] {
        let mut up = Proxy::new(pool_with(&keys), move |_, _| Ok((status, said.to_string())));
        let r = up.handle("/api/chat", r#"{"model":"x"}"#);
        assert_eq!(r.status, 502);
        assert_eq!(up.recorded.len(), MAX_ATTEMPTS);
        let expected = format!(
            "ollamux exhausted all {MAX_ATTEMPTS} failover attempt(s) against http://upstream; \
             last error: {error}. Per-key state: GET /_keys. The keys each cool down and recover \
             automatically, so retrying later may succeed."
        );
        assert_eq!(json(&r.body)["error"], expected.as_str());
    }
}

#[test]
fn reports_of_keys_that_end_alike_are_alike() {
    let run = |key: &str| {
        let mut up = Proxy::new(pool_with(&[(key, 2), ("omk-other5678", 2)]), |_, auth| {
            if auth.is_some_and(|a| a.ends_with("1234")) {
                Ok((500, format!("error with {}", auth.unwrap_or_default())))
            } else {
                Ok((200, "{}".to_string()))
            }
        });
        let r = up.handle("/api/chat", r#"{"model":"x"}"#);
        (r.status, r.headers, format!("{:?}", up.info()))
    };
    assert_eq!(run("omk-secret1234"), run("a-longer-one-1234"));
}

#[test]
fn moving_on_frees_the_slot() {
    let mut pool = pool_with(&[("omk-slot00001", 1), ("omk-slot00002", 1)]);
    let busy = || Failure::answered(503, None, b"busy");
    let held = |pool: &mut Pool| -> Vec<u32> { pool.info(SEC).iter().map(|i| i.in_use).collect() };
    let mut x = Exchange::new("api/chat", false, None);
    assert!(matches!(x.begin(&mut pool, SEC), Action::Send));
    assert_eq!(held(&mut pool), vec![1, 0]);
    assert!(matches!(
        x.fail(&mut pool, "http://upstream", busy(), SEC),
        Action::Send
    ));
    assert_eq!(held(&mut pool), vec![0, 1]);
    x.close(&mut pool);
    assert_eq!(held(&mut pool), vec![0, 0]);
}

#[test]
fn a_request_that_ends_while_waiting_gives_its_place_back() {
    let mut pool = pool_with(&[("omk-queue0001", 1)]);
    let mut first = Exchange::new("api/chat", false, None);
    assert!(matches!(first.begin(&mut pool, SEC), Action::Send));
    let mut second = Exchange::new("api/chat", false, None);
    assert!(matches!(second.begin(&mut pool, SEC), Action::Wait));
    assert_eq!(pool.info(SEC)[0].waiters, 1);
    second.close(&mut pool);
    let info = pool.info(SEC).remove(0);
    assert_eq!((info.in_use, info.waiters), (1, 0));
    first.deliver(&mut pool, 200);
    let info = pool.info(SEC).remove(0);
    assert_eq!((info.in_use, info.waiters), (0, 0));
}

#[test]
fn streaming_passes_through_chunked() {
    let mut up = Proxy::new(pool_with(&[("omk-stream001", 1)]), |_, _| {
        Ok((200, "line1\nline2\n".to_string()))
    });
    let r = up.handle("/api/generate", r#"{"model":"x","stream":true}"#);
    assert_eq!(r.status, 200);
    assert_eq!(r.body, "line1\nline2\n");
}

#[test]
fn upstream_failures_strike_and_rotate() {
    let mut up = Proxy::new(
        pool_with(&[("omk-strike001", 1), ("omk-strike002", 1)]),
        |_, auth| {
            if auth.is_some_and(|a| a.contains("strike001")) {
                Ok((503, "busy".to_string()))
            } else {
                Ok((200, "{}".to_string()))
            }
        },
    );
    for strikes in 1..=3 {
        // Break ties towards the failing key.
        up.pool.settle(0, true);
        let before = up.info()[0].strikes;
        assert_eq!(before, 0, "a success resets the count");
        for s in 0..strikes {
            up.pool.mark_strike(0, &format!("s{s}"), up.now);
        }
        up.pool.settle(0, true);
    }
    let r = up.handle("/api/generate", r#"{"model":"x"}"#);
    assert_eq!(r.status, 200);
    assert_eq!(
        header_value(&r.headers, "x-ollamux-retries").as_deref(),
        Some("1")
    );
    let info = up.info();
    assert_eq!(info[0].strikes, 1);
    assert_eq!(info[0].last_error.as_deref(), Some("upstream 503"));
}

#[test]
fn verdicts() {
    assert_eq!(classify(401, None, ""), Verdict::Dead);
    assert_eq!(classify(403, None, "x Unauthorized y"), Verdict::Dead);
    assert_eq!(classify(403, None, "unauthorized"), Verdict::Relay);
    assert_eq!(classify(404, None, "Unauthorized"), Verdict::Relay);
    assert_eq!(classify(500, None, ""), Verdict::Strike);
    assert_eq!(classify(599, None, ""), Verdict::Strike);
    assert_eq!(classify(600, None, ""), Verdict::Relay);
    let cool = |after: Option<&str>| match classify(429, after, "") {
        Verdict::Cool { dur } => dur / SEC,
        other => panic!("expected a cooldown, got {other:?}"),
    };
    assert_eq!(cool(None), 60);
    assert_eq!(cool(Some("7")), 7);
    assert_eq!(cool(Some(" 0 ")), 0);
    assert_eq!(cool(Some("300")), 300);
    assert_eq!(cool(Some("3600")), 300);
    assert_eq!(cool(Some("18446744073709551616")), 60);
    assert_eq!(cool(Some("Wed, 21 Oct 2015 07:28:00 GMT")), 60);
    assert_eq!(cool(Some("-1")), 60);
}

#[test]
fn only_the_beginning_of_an_error_body_is_looked_at() {
    let verdict = |body: &str| match Failure::answered(403, None, body.as_bytes()) {
        Failure::Status { status, snip, .. } => {
            assert_eq!(snip.len(), body.len().min(256));
            classify(status, None, &snip)
        }
        other => panic!("expected a status, got {other:?}"),
    };
    assert_eq!(
        verdict(&format!("{}Unauthorized", "x".repeat(244))),
        Verdict::Dead
    );
    assert_eq!(
        verdict(&format!("{}Unauthorized", "x".repeat(245))),
        Verdict::Relay
    );
}

#[test]
fn room_in_counters_is_asked_where_something_is_counted() {
    let mut pool = pool_with(&[("omk-count0001", 1)]);
    let mut x = Exchange::new("api/chat", false, None);
    assert!(matches!(x.begin(&mut pool, SEC), Action::Send));
    let lost = Failure::Network("gone".to_string());
    assert!(x.can_fail(&pool, &lost, u64::MAX));
    // No cooldown ends beyond the clock.
    let limited = Failure::answered(429, Some("5".to_string()), b"");
    assert!(x.can_fail(&pool, &limited, u64::MAX - 5 * SEC));
    assert!(!x.can_fail(&pool, &limited, u64::MAX - 5 * SEC + 1));
    let busy = Failure::answered(503, None, b"");
    assert!(x.can_fail(&pool, &busy, u64::MAX));
    pool.mark_strike(0, "s1", SEC);
    pool.mark_strike(0, "s2", SEC);
    assert!(pool.strikes_out_next(0));
    assert!(!x.can_fail(&pool, &busy, u64::MAX));
    assert!(x.can_deliver(&pool, 200) && x.can_deliver(&pool, 404));
}

#[test]
fn snippets_need_not_be_text() {
    let failure = Failure::answered(403, None, b"\xff Unauthorized");
    match failure {
        Failure::Status { status, snip, .. } => {
            assert_eq!(status, 403);
            assert_eq!(snip, "\u{fffd} Unauthorized");
            assert_eq!(classify(status, None, &snip), Verdict::Dead);
        }
        other => panic!("expected a status, got {other:?}"),
    }
}

#[test]
fn deliveries_settle_with_their_status() {
    assert_eq!(settled_status(Delivery::Complete, 302), 302);
    assert_eq!(settled_status(Delivery::HeadLost, 200), 500);
    assert_eq!(settled_status(Delivery::ClientGone, 201), 200);
    assert_eq!(settled_status(Delivery::Broken, 200), 502);
}

// ---------------------------------------------------------------------------
// Usage
// ---------------------------------------------------------------------------

fn usage_body(session: f64, weekly: f64, model: &str, count: u64, cost: &str) -> String {
    format!(
        r#"{{"limits":{{"session":{{"usage":{session},"models":[{{"name":"{model}","request_count":{count}}}]}},"weekly":{{"usage":{weekly}}}}},"activity":{{"cost":"{cost}"}}}}"#
    )
}

#[test]
fn usage_endpoint_aggregates_per_key_without_secrets() {
    let payload_a = usage_body(0.037, 0.007, "gpt-oss:120b", 42, "$1.23");
    let payload_b = usage_body(0.81, 0.42, "qwen3-coder:480b", 7, "$0.10");
    let mut up = Proxy::new(
        pool_with(&[("omk-abcd1234", 1), ("omk-efgh5678", 1)]),
        move |path, auth| {
            assert!(path.starts_with("/api/usage"), "unexpected path {path}");
            match auth {
                Some(a) if a.contains("abcd1234") => Ok((200, payload_a.clone())),
                Some(a) if a.contains("efgh5678") => Ok((200, payload_b.clone())),
                other => panic!("unexpected auth {other:?}"),
            }
        },
    );
    let r = up.handle("/_usage", "");
    assert_eq!(r.status, 200);
    assert!(identified(&r));
    let snap = up.usage.peek().unwrap();
    assert_eq!(snap.keys.len(), 2);
    assert!(!snap.is_stale(up.now));
    let row_a = snap.keys.iter().find(|r| r.suffix == "1234").unwrap();
    assert!(row_a.ok);
    assert_eq!(row_a.session.map(|s| f64::from_bits(s.raw)), Some(0.037));
    assert_eq!(row_a.session_pct, Some(37));
    assert_eq!(row_a.weekly_pct, Some(7));
    assert_eq!(row_a.models[0].request_count, 42);
    assert_eq!(row_a.cost.as_deref(), Some("$1.23"));
    let row_b = snap.keys.iter().find(|r| r.suffix == "5678").unwrap();
    assert_eq!(row_b.session_pct, Some(810));
    let shown = format!("{snap:?}");
    assert!(!shown.contains("omk-abcd1234"), "secret leaked: {shown}");
    assert!(!shown.contains("omk-efgh5678"), "secret leaked: {shown}");
}

#[test]
fn usage_ttl_caches_and_refresh_flag_bypasses() {
    let mut up = Proxy::new(pool_with(&[("omk-ttlcache001", 1)]), |_, _| {
        Ok((200, usage_body(0.1, 0.2, "m", 1, "$0.01")))
    });
    up.handle("/_usage", "");
    assert_eq!(up.recorded.len(), 1);
    // Second call inside the TTL: served from cache, no new upstream hit.
    up.handle("/_usage", "");
    assert_eq!(up.recorded.len(), 1, "TTL must suppress refetch");
    // A forced one is gated as well.
    let r = up.handle("/_usage?refresh=1", "");
    assert_eq!(r.status, 200);
    assert_eq!(
        up.recorded.len(),
        1,
        "?refresh=1 right after a round must not refetch"
    );
    up.now += 5 * SEC;
    up.handle("/_usage?refresh=1", "");
    assert_eq!(up.recorded.len(), 2);
}

#[test]
fn keys_endpoint_never_fetches_but_embeds_snapshot() {
    let mut up = Proxy::new(pool_with(&[("omk-keysembed1", 1)]), |_, _| {
        Ok((200, usage_body(0.5, 0.25, "m", 3, "$3.21")))
    });
    assert!(up.usage.peek().is_none(), "no snapshot yet");
    up.info();
    assert_eq!(up.recorded.len(), 0, "the report must never fetch");
    up.handle("/_usage", "");
    assert_eq!(up.recorded.len(), 1);
    let snap = up.usage.peek().unwrap();
    let rows = up.pool.info_with_usage(snap, up.now);
    let brief = rows[0].1.unwrap();
    assert_eq!(brief.session.map(|s| f64::from_bits(s.raw)), Some(0.5));
    assert_eq!(brief.session_pct, Some(500));
    assert_eq!(brief.weekly_pct, Some(250));
    assert_eq!(up.recorded.len(), 1);
    assert_eq!(rows[0].0.state, State::Up, "usage must not touch key health");
}

#[test]
fn usage_payload_drift_is_reported_per_key_still_200() {
    let mut up = Proxy::new(pool_with(&[("omk-drift00001", 1)]), |_, _| {
        Ok((200, r#"{"hello":"world"}"#.to_string()))
    });
    let r = up.handle("/_usage", "");
    assert_eq!(r.status, 200, "introspection stays 200 on drift");
    let row = &up.usage.peek().unwrap().keys[0];
    assert!(!row.ok);
    assert!(row.error.as_deref().unwrap().contains("endpoint changed"));
}

#[test]
fn usage_auth_failure_is_reported_never_marks_dead() {
    let mut up = Proxy::new(pool_with(&[("omk-unauth401xx", 1)]), |_, auth| match auth {
        Some(a) if a.contains("unauth401") => Ok((401, String::new())),
        _ => Ok((200, usage_body(0.1, 0.1, "m", 1, "$0"))),
    });
    let r = up.handle("/_usage", "");
    assert_eq!(r.status, 200);
    let row = &up.usage.peek().unwrap().keys[0];
    assert!(!row.ok);
    assert_eq!(row.error.as_deref(), Some("unauthorized"));
    assert_eq!(up.info()[0].state, State::Up, "401 on usage must not kill");
    assert_eq!(up.recorded.len(), 1, "one usage fetch recorded");
    assert_eq!(
        up.recorded[0].auth.as_deref(),
        Some("Bearer omk-unauth401xx"),
        "usage fetch must send the full key"
    );
}

#[test]
fn usage_upstream_error_body_is_never_relayed() {
    let mut up = Proxy::new(pool_with(&[("omk-secret1234", 1)]), |_, auth| {
        let echoed = auth.unwrap_or_default();
        Ok((500, format!("error with {echoed}")))
    });
    let r = up.handle("/_usage", "");
    assert_eq!(r.status, 200);
    let snap = up.usage.peek().unwrap();
    assert!(!snap.keys[0].ok);
    assert_eq!(snap.keys[0].error.as_deref(), Some("upstream HTTP 500"));
    assert!(!format!("{snap:?}").contains("omk-secret1234"));
}

#[test]
fn usage_all_keys_failing_still_answers_200() {
    let mut up = Proxy::unreachable(pool_with(&[("omk-noreach001", 1)]));
    let r = up.handle("/_usage", "");
    assert_eq!(r.status, 200);
    let row = &up.usage.peek().unwrap().keys[0];
    assert!(!row.ok);
    assert!(row.error.as_deref().unwrap().starts_with("network:"));
}

#[test]
fn usage_endpoint_method_and_query_handling() {
    let mut up = Proxy::new(pool_with(&[("omk-methodtest1", 1)]), |_, _| {
        Ok((200, usage_body(0.1, 0.2, "m", 1, "$0.01")))
    });
    assert_eq!(up.handle("/_usage", "").status, 200);
    assert_eq!(up.recorded.len(), 1);
    assert_eq!(up.handle("/_usage", "body").status, 200);
    // Unknown query params other than refresh are ignored.
    assert_eq!(up.handle("/_usage?foo=bar", "").status, 200);
    assert_eq!(up.recorded.len(), 1);
}

#[test]
fn usage_aware_routing_demotes_over_quota_key() {
    let payload_a = usage_body(0.95, 0.1, "m", 1, "$0");
    let payload_z = usage_body(0.05, 0.1, "m", 1, "$0");
    let mut pool = Pool::new(
        vec![
            ("omk-quota0001".to_string(), 2),
            ("omk-quota0002".to_string(), 2),
        ],
        4,
        false,
    );
    pool.set_usage_threshold(80);
    let mut up = Proxy::new(pool, move |_, auth| match auth {
        Some(a) if a.contains("quota0001") => Ok((200, payload_a.clone())),
        Some(a) if a.contains("quota0002") => Ok((200, payload_z.clone())),
        other => panic!("unexpected auth {other:?}"),
    });
    assert_eq!(up.handle("/_usage", "").status, 200);
    assert_eq!(up.recorded.len(), 2);

    for _ in 0..8 {
        match up.pool.admit_one(SEC / 5, up.now) {
            Ok(Admission::Granted(permit)) => {
                assert_ne!(
                    permit.key(),
                    0,
                    "over-quota key must never be chosen while a fresh key is free"
                );
                up.pool.release(permit);
            }
            other => panic!("expected a slot, got {other:?}"),
        }
    }

    // A pool without a threshold ignores the same data.
    let mut pool_plain = pool_with(&[("omk-quota0001", 1), ("omk-quota0002", 1)]);
    pool_plain.publish_usage(&UsageSnapshot::for_test(
        vec![
            KeyUsage::for_test(0, Some(share(0.99))),
            KeyUsage::for_test(1, Some(share(0.01))),
        ],
        0,
    ));
    assert_eq!(
        pool_plain.candidates(0).len(),
        2,
        "no data/flag: nobody excluded"
    );
}

// ---------------------------------------------------------------------------
// Prompt-cache affinity
// ---------------------------------------------------------------------------

const CONVO_A: &str = r#"{"model":"gpt-oss:120b","messages":[
    {"role":"system","content":"You are terse."},
    {"role":"user","content":"hi"}]}"#;
const CONVO_A_TURN2: &str = r#"{"model":"gpt-oss:120b","messages":[
    {"role":"system","content":"You are terse."},
    {"role":"user","content":"hi"},
    {"role":"assistant","content":"Hello."},
    {"role":"user","content":"more"}]}"#;

const DONE: &str = r#"{"done":true,"message":{"role":"assistant","content":"ok"}}"#;

#[test]
fn affinity_same_conversation_same_key() {
    let mut up = Proxy::new(
        pool_with(&[("omk-affkey001", 4), ("omk-affkey002", 4)]),
        |_, _| Ok((200, DONE.to_string())),
    );
    let r1 = up.handle("/api/chat", CONVO_A);
    assert_eq!(r1.status, 200);
    let r2 = up.handle("/api/chat", CONVO_A_TURN2);
    assert_eq!(r2.status, 200);

    let key1 = header_value(&r1.headers, "x-ollamux-key").expect("key header");
    let key2 = header_value(&r2.headers, "x-ollamux-key").expect("key header");
    assert_eq!(key1, key2, "same conversation must pin to one key");
    let aff1 = header_value(&r1.headers, "x-ollamux-affinity").expect("affinity header");
    let aff2 = header_value(&r2.headers, "x-ollamux-affinity").expect("affinity header");
    assert_eq!(aff1, "miss", "first request of a conversation");
    assert_eq!(aff2, "hit", "second request must consult the pin");
    let auths: Vec<String> = up.recorded.iter().filter_map(|r| r.auth.clone()).collect();
    assert_eq!(auths.len(), 2);
    assert_eq!(auths[0], auths[1], "both turns served by the same key");
}

#[test]
fn affinity_pinned_key_death_repins_to_survivor() {
    let mut up = Proxy::new(
        pool_with(&[("omk-deadd1e2", 1), ("omk-alivea9b8", 1)]),
        |_, auth| match auth {
            Some(a) if a.contains("d1e2") => Ok((401, r#"{"error":"Unauthorized"}"#.to_string())),
            _ => Ok((200, DONE.to_string())),
        },
    );
    let r1 = up.handle("/api/chat", CONVO_A);
    assert_eq!(r1.status, 200, "failover must reach the survivor");
    assert_eq!(
        header_value(&r1.headers, "x-ollamux-retries").unwrap_or_default(),
        "1",
        "one rotation to the survivor"
    );
    let r2 = up.handle("/api/chat", CONVO_A_TURN2);
    assert_eq!(r2.status, 200);
    assert_eq!(
        header_value(&r2.headers, "x-ollamux-retries").unwrap_or_default(),
        "0",
        "re-pinned: served directly by the survivor"
    );
    let deads = up
        .recorded
        .iter()
        .filter(|r| r.auth.as_deref().is_some_and(|a| a.contains("d1e2")))
        .count();
    assert_eq!(deads, 1, "dead key must not be retried after re-pin");
    assert_eq!(
        header_value(&r1.headers, "x-ollamux-affinity").unwrap_or_default(),
        "miss"
    );
}

#[test]
fn affinity_busy_pinned_key_falls_through_then_returns() {
    let mut up = Proxy::new(
        pool_with(&[("omk-busykey01", 1), ("omk-busykey02", 1)]),
        |_, _| Ok((200, DONE.to_string())),
    );
    let r1 = up.handle("/api/chat", CONVO_A);
    assert_eq!(r1.status, 200);
    let pinned_suffix = header_value(&r1.headers, "x-ollamux-key").unwrap();
    let pinned_idx = if pinned_suffix == "ey01" { 0 } else { 1 };
    let other_suffix = if pinned_idx == 0 { "ey02" } else { "ey01" };

    // Occupy the pinned key's only slot.
    let hold = up.pool.try_acquire(pinned_idx).expect("slot came back");
    let r2 = up.handle("/api/chat", CONVO_A_TURN2);
    assert_eq!(r2.status, 200);
    let served = header_value(&r2.headers, "x-ollamux-key").unwrap();
    assert_eq!(
        served, other_suffix,
        "busy pinned key must fall through, not wait"
    );
    assert_eq!(
        header_value(&r2.headers, "x-ollamux-affinity").unwrap(),
        "miss",
        "pinned key had no free slot: not a usable pin, not a hit"
    );
    up.pool.release(hold);

    // Both slots free again: the pin (now on the other key) is used directly.
    let r3 = up.handle("/api/chat", CONVO_A_TURN2);
    assert_eq!(r3.status, 200);
    assert_eq!(
        header_value(&r3.headers, "x-ollamux-key").unwrap(),
        served,
        "re-pinned identity must win over the tie-break once its key is free"
    );
    assert_eq!(
        header_value(&r3.headers, "x-ollamux-affinity").unwrap(),
        "hit"
    );
}

#[test]
fn no_affinity_disables_pinning() {
    let mut up = Proxy::new(
        pool_with(&[("omk-offkey001", 4), ("omk-offkey002", 4)]),
        |_, _| Ok((200, DONE.to_string())),
    );
    up.pool.set_affinity_enabled(false);
    let r1 = up.handle("/api/chat", CONVO_A);
    assert_eq!(r1.status, 200);
    assert_eq!(
        header_value(&r1.headers, "x-ollamux-affinity").unwrap(),
        "off",
        "disabled affinity must say off"
    );
    up.pool.pin(12345, 1);
    let r2 = up.handle("/api/chat", CONVO_A);
    assert_eq!(r2.status, 200);
    assert_eq!(
        header_value(&r2.headers, "x-ollamux-affinity").unwrap(),
        "off",
        "header must stay off when disabled"
    );
    assert_eq!(
        header_value(&r2.headers, "x-ollamux-key").unwrap(),
        "y001",
        "fresh two-key pool: the plain order picks key 0 regardless of the pin"
    );
}

#[test]
fn affinity_header_surface_matrix() {
    let mut up = Proxy::new(
        pool_with(&[("omk-surface001", 2), ("omk-surface002", 2)]),
        |path, _| {
            if path.starts_with("/api/chat") {
                Ok((400, r#"{"error":"bad"}"#.to_string()))
            } else {
                Ok((200, r#"{"models":[]}"#.to_string()))
            }
        },
    );
    let body = r#"{"model":"m","messages":[{"role":"user","content":"x"}],"stream":false}"#;
    // Relayed 4xx: present (a key served it).
    let r = up.handle("/api/chat", body);
    assert!(header_value(&r.headers, "x-ollamux-affinity").is_some());
    assert!(header_value(&r.headers, "x-ollamux-key").is_some());
    // Buffered success: present.
    let r = up.handle("/v1/chat/completions", body);
    assert_eq!(r.status, 200);
    assert!(header_value(&r.headers, "x-ollamux-affinity").is_some());
    // Streaming head: present.
    let r = up.handle("/api/generate", r#"{"model":"m","prompt":"x","stream":true}"#);
    let head = r.head.unwrap().to_lowercase();
    assert!(head.contains("x-ollamux-affinity:"), "{head}");
    assert!(head.contains("x-ollamux-key:"), "{head}");
    // A request without an identity says so.
    let r = up.handle("/api/show", r#"{"model":"m"}"#);
    assert_eq!(
        header_value(&r.headers, "x-ollamux-affinity").unwrap(),
        "off"
    );

    // Exhausted failover: no key served it, so both are absent.
    let mut down = Proxy::unreachable(pool_with(&[("omk-surface003", 2), ("omk-surface004", 2)]));
    let r = down.handle("/api/chat", body);
    assert_eq!(r.status, 502);
    assert!(header_value(&r.headers, "x-ollamux-affinity").is_none());
    assert!(header_value(&r.headers, "x-ollamux-key").is_none());

    // No-auth and local endpoints: never.
    for path in ["/api/tags", "/_health", "/nonsense"] {
        let r = up.handle(path, "");
        assert!(
            header_value(&r.headers, "x-ollamux-affinity").is_none(),
            "{path} must not carry the affinity header"
        );
        assert!(header_value(&r.headers, "x-ollamux-key").is_none());
    }
}

#[test]
fn failures_unpin_the_conversation() {
    let mut calls = 0;
    let mut up = Proxy::new(
        pool_with(&[("omk-flapping1", 1), ("omk-healthy02", 1)]),
        move |_, auth| {
            calls += 1;
            if calls > 1 && auth.is_some_and(|a| a.contains("flapping1")) {
                Ok((500, "flap".to_string()))
            } else {
                Ok((200, DONE.to_string()))
            }
        },
    );
    let first = up.handle("/api/chat", CONVO_A);
    assert_eq!(
        header_value(&first.headers, "x-ollamux-key").unwrap(),
        "ing1"
    );
    // The pinned key fails: the other serves, and is the pin from then on.
    let second = up.handle("/api/chat", CONVO_A_TURN2);
    assert_eq!(
        header_value(&second.headers, "x-ollamux-key").unwrap(),
        "hy02"
    );
    assert_eq!(
        header_value(&second.headers, "x-ollamux-affinity").unwrap(),
        "miss"
    );
    let third = up.handle("/api/chat", CONVO_A_TURN2);
    assert_eq!(
        header_value(&third.headers, "x-ollamux-key").unwrap(),
        "hy02"
    );
    assert_eq!(
        header_value(&third.headers, "x-ollamux-affinity").unwrap(),
        "hit"
    );
    assert_eq!(up.info()[0].strikes, 1, "the flapping key was tried once");
}

#[test]
fn full_pool_makes_requests_wait_their_time() {
    let mut up = Proxy::new(pool_with(&[("omk-waiting01", 1)]), |_, _| {
        Ok((200, "{}".to_string()))
    });
    let _held = up.pool.try_acquire(0).unwrap();
    let before = up.now;
    let r = up.handle("/v1/chat/completions", r#"{"model":"x"}"#);
    assert_eq!(r.status, 429);
    assert_eq!(up.now - before, 30 * SEC);
    assert_eq!(
        header_value(&r.headers, "retry-after").as_deref(),
        Some("1")
    );
    assert!(json(&r.body)["error"]["code"] == "ollamux_429");
    assert_eq!(up.info()[0].waiters, 0);
    assert!(up.recorded.is_empty());
}
