use ollamux::affinity::RequestBody;
use ollamux::exchange::Delivery;
use ollamux::framing::{stream_head, stream_step};
use ollamux::headers::{
    curated_request_headers, curated_response_headers, identity_header, reply_headers,
    request_headers, response_headers, usage_headers, Affinity, Served,
};
use ollamux::pool::Reject;
use ollamux::proxy::{
    check_body, error_json, health_json, https_only, idle_connections, is_no_auth_path,
    reason_phrase, reject_reply, request_url, route, split_url, upstream_base, wants_stream,
    worker_count, Route, MAX_BODY, NOT_FOUND,
};

fn header(name: &str, value: &str) -> (String, String) {
    (name.to_string(), value.to_string())
}

fn forced(query: Option<&str>) -> bool {
    match route("/_usage", query) {
        Route::Usage { force } => force,
        other => panic!("not the usage endpoint: {other:?}"),
    }
}

#[test]
fn urls_split_at_the_first_question_mark() {
    assert_eq!(split_url("/api/tags"), ("/api/tags".to_string(), None));
    assert_eq!(
        split_url("/a?b?c"),
        ("/a".to_string(), Some("b?c".to_string()))
    );
    assert_eq!(split_url("?"), (String::new(), Some(String::new())));
}

#[test]
fn routes() {
    assert!(matches!(route("/_keys", None), Route::Keys));
    assert!(matches!(route("_keys", None), Route::Keys));
    assert!(matches!(route("///_health", None), Route::Health));
    assert!(matches!(
        route("/api/chat", None),
        Route::Proxy { ref sub_path, is_v1: false } if sub_path == "api/chat"
    ));
    assert!(matches!(
        route("//v1/models", Some("x")),
        Route::Proxy { ref sub_path, is_v1: true } if sub_path == "v1/models"
    ));
    for path in ["/", "", "/api", "/v1", "/_keys/", "/nonsense", "/apix/"] {
        assert!(matches!(route(path, None), Route::NotFound), "{path}");
    }
}

#[test]
fn refresh_is_asked_for_in_the_query() {
    assert!(!forced(None));
    assert!(!forced(Some("")));
    assert!(!forced(Some("foo=bar")));
    assert!(forced(Some("refresh")));
    assert!(forced(Some("refresh=")));
    assert!(forced(Some("refresh=1")));
    assert!(forced(Some("a=b&refresh=yes")));
    assert!(forced(Some("refresh=0&refresh=1")));
    assert!(!forced(Some("refresh=0")));
    assert!(!forced(Some("refresh=false&x=refresh")));
    assert!(!forced(Some("xrefresh=1")));
}

#[test]
fn not_found_says_what_this_is() {
    assert!(NOT_FOUND.contains("not a local Ollama"));
    assert!(NOT_FOUND.contains("Ollama Cloud"));
    assert!(NOT_FOUND.contains("11434"));
    assert!(NOT_FOUND.contains("/api/*"));
    let value: serde_json::Value = serde_json::from_str(NOT_FOUND).unwrap();
    assert!(value["error"].is_string());
}

#[test]
fn no_auth_paths() {
    for path in ["api/tags", "api/version", "v1/models"] {
        assert!(is_no_auth_path(path));
    }
    for path in ["/api/tags", "api/tags/", "api/chat", ""] {
        assert!(!is_no_auth_path(path));
    }
}

#[test]
fn streaming_defaults_by_surface() {
    let body = |text: &str| RequestBody::parse(text.as_bytes());
    let on = body(r#"{"stream":true}"#);
    let off = body(r#"{"stream":false}"#);
    let none = body("{}");
    let odd = body(r#"{"stream":"yes"}"#);
    let null = body(r#"{"stream":null}"#);
    let array = body("[]");
    for is_v1 in [false, true] {
        assert!(wants_stream(on.as_ref(), is_v1));
        assert!(!wants_stream(off.as_ref(), is_v1));
        assert_eq!(wants_stream(none.as_ref(), is_v1), !is_v1);
        assert!(!wants_stream(odd.as_ref(), is_v1));
        assert!(!wants_stream(null.as_ref(), is_v1));
        assert_eq!(wants_stream(array.as_ref(), is_v1), !is_v1);
        assert!(!wants_stream(None, is_v1));
    }
}

#[test]
fn errors_have_the_shape_of_their_surface() {
    assert_eq!(
        error_json(false, "it \"broke\"\n", 502),
        r#"{"error":"it \"broke\"\n"}"#
    );
    assert_eq!(
        error_json(true, "no", 429),
        r#"{"error":{"code":"ollamux_429","message":"no","param":null,"type":"ollamux_error"}}"#
    );
    let value: serde_json::Value = serde_json::from_str(&error_json(true, "\u{1}…", 413)).unwrap();
    assert_eq!(value["error"]["message"], "\u{1}…");
}

#[test]
fn health_report() {
    assert_eq!(
        health_json(true, 2, 6),
        r#"{"keys":2,"ok":true,"service":"ollamux","total_slots":6,"version":"0.4.0"}"#
    );
    assert!(health_json(false, 0, 0).contains(r#""ok":false"#));
}

#[test]
fn bodies_are_capped() {
    assert!(check_body(Some(MAX_BODY), false).is_none());
    let reply = check_body(Some(MAX_BODY + 1), false).unwrap();
    assert_eq!(reply.status, 413);
    assert!(reply.body.contains("16 MiB limit"));
    let reply = check_body(None, true).unwrap();
    assert_eq!(reply.status, 400);
    assert!(reply.body.contains("ollamux_400"));
    assert_eq!(reply.retry_after_s, None);
}

#[test]
fn rejects_carry_their_delay() {
    let reject = Reject {
        status: 429,
        reason: "later",
        retry_after_s: Some(7),
    };
    let reply = reject_reply(&reject, false);
    assert_eq!(reply.status, 429);
    assert_eq!(reply.body, r#"{"error":"later"}"#);
    assert_eq!(reply.retry_after_s, Some(7));
    assert_eq!(
        reply_headers(reply.retry_after_s),
        vec![
            header("Content-Type", "application/json"),
            header("X-Ollamux", "ollamux/0.4.0"),
            header("Retry-After", "7"),
        ]
    );
    assert_eq!(reply_headers(None).len(), 2);
}

#[test]
fn upstream_addresses() {
    assert_eq!(upstream_base("https://ollama.com//"), "https://ollama.com");
    assert!(https_only("https://ollama.com"));
    assert!(!https_only("http://127.0.0.1:1"));
    assert_eq!(
        request_url("http://u", "api/tags", Some("foo=bar&z=1")),
        "http://u/api/tags?foo=bar&z=1"
    );
    assert_eq!(request_url("http://u", "api/tags", Some("")), "http://u/api/tags");
    assert_eq!(request_url("http://u", "api/tags", None), "http://u/api/tags");
}

#[test]
fn sizes_follow_the_slots() {
    assert_eq!(worker_count(0), 4);
    assert_eq!(worker_count(17), 17);
    assert_eq!(worker_count(1000), 64);
    assert_eq!(idle_connections(0), (8, 4));
    assert_eq!(idle_connections(5), (16, 5));
    assert_eq!(idle_connections(8), (16, 8));
    assert_eq!(idle_connections(u32::MAX), (8_589_934_592, 4_294_967_295));
}

#[test]
fn client_headers_are_curated() {
    let incoming = vec![
        header("Host", "localhost"),
        header("X-Trace", "1"),
        header("AUTHORIZATION", "Bearer client"),
        header("Cookie", "c"),
        header("Content-Type", "application/json"),
        header("Proxy-Whatever", "p"),
        header("Accept-Encoding", "gzip"),
        header("Content-Length", "3"),
        header("x-trace", "2"),
    ];
    let kept = vec![
        header("X-Trace", "1"),
        header("Content-Type", "application/json"),
        header("x-trace", "2"),
    ];
    assert_eq!(curated_request_headers(&incoming), kept);
    let mut with_key = kept.clone();
    with_key.push(header("Authorization", "Bearer omk-1"));
    with_key.push(header("Accept-Encoding", "identity"));
    assert_eq!(request_headers(&incoming, Some("omk-1")), with_key);
    let mut without = kept;
    without.push(header("Accept-Encoding", "identity"));
    assert_eq!(request_headers(&incoming, None), without);
    assert_eq!(
        usage_headers("omk-1"),
        vec![
            header("Authorization", "Bearer omk-1"),
            header("Accept", "application/json"),
        ]
    );
}

#[test]
fn upstream_headers_are_curated() {
    let entry = |name: &str, values: &[&str]| {
        (
            name.to_string(),
            values.iter().map(|v| v.to_string()).collect::<Vec<String>>(),
        )
    };
    let upstream = vec![
        entry("date", &["today"]),
        entry("set-cookie", &["a", "b"]),
        entry("link", &["one", "two"]),
        entry("content-length", &["5"]),
        entry("link", &["one", "two"]),
        entry("transfer-encoding", &["chunked"]),
        entry("content-type", &["text/plain"]),
    ];
    assert_eq!(
        curated_response_headers(&upstream),
        vec![
            header("date", "today"),
            header("link", "one"),
            header("link", "two"),
            // Listed once for each of its headers, and sent as often.
            header("link", "one"),
            header("link", "two"),
            header("content-type", "text/plain"),
        ]
    );
}

#[test]
fn responses_say_who_served_them() {
    let served = Served {
        suffix: Some("1234".to_string()),
        retries: 2,
        affinity: Affinity::Hit,
    };
    assert_eq!(
        response_headers(&vec![header("date", "today")], &served),
        vec![
            header("date", "today"),
            header("X-Ollamux-Key", "1234"),
            header("X-Ollamux-Retries", "2"),
            header("X-Ollamux-Affinity", "hit"),
            header("X-Ollamux", "ollamux/0.4.0"),
        ]
    );
    let anonymous = Served {
        suffix: None,
        retries: 0,
        affinity: Affinity::Off,
    };
    assert_eq!(
        response_headers(&Vec::new(), &anonymous),
        vec![
            header("X-Ollamux-Retries", "0"),
            header("X-Ollamux", "ollamux/0.4.0"),
        ]
    );
    assert_eq!(identity_header(), header("X-Ollamux", "ollamux/0.4.0"));
    assert_eq!(Affinity::Miss.text(), "miss");
    assert_eq!(Affinity::Off.text(), "off");
}

#[test]
fn stream_heads() {
    let served = Served {
        suffix: Some("1234".to_string()),
        retries: 1,
        affinity: Affinity::Miss,
    };
    let headers = vec![
        header("content-type", "application/x-ndjson"),
        header("Content-Length", "9"),
    ];
    assert_eq!(
        stream_head(200, false, &headers, &served),
        "HTTP/1.1 200 OK\r\nX-Ollamux: ollamux/0.4.0\r\nX-Ollamux-Key: 1234\r\nX-Ollamux-Retries: 1\r\nX-Ollamux-Affinity: miss\r\ncontent-type: application/x-ndjson\r\nTransfer-Encoding: chunked\r\n\r\n"
    );
    let anonymous = Served {
        suffix: None,
        retries: 0,
        affinity: Affinity::Off,
    };
    assert_eq!(
        stream_head(206, true, &Vec::new(), &anonymous),
        "HTTP/1.1 206 \r\nX-Ollamux: ollamux/0.4.0\r\nX-Ollamux-Retries: 0\r\nConnection: close\r\n\r\n"
    );
}

#[test]
fn chunks_are_framed_in_hexadecimal() {
    let step = stream_step(false, Some(b"abc"));
    assert_eq!(step.bytes, b"3\r\nabc\r\n".to_vec());
    assert_eq!(step.end, None);
    let long = vec![b'x'; 0x1a2f];
    let framed = stream_step(false, Some(&long)).bytes;
    assert!(framed.starts_with(b"1a2f\r\nx"));
    assert!(framed.ends_with(b"x\r\n"));
    assert_eq!(framed.len(), 4 + 2 + long.len() + 2);
}

#[test]
fn streams_are_closed_however_they_end() {
    let step = stream_step(false, Some(b""));
    assert_eq!(step.bytes, b"0\r\n\r\n".to_vec());
    assert_eq!(step.end, Some(Delivery::Complete));
    let step = stream_step(false, None);
    assert_eq!(step.bytes, b"0\r\n\r\n".to_vec());
    assert_eq!(step.end, Some(Delivery::Broken));
    // HTTP/1.0 has no chunks.
    let step = stream_step(true, Some(b"abc"));
    assert_eq!(step.bytes, b"abc".to_vec());
    assert_eq!(step.end, None);
    let step = stream_step(true, Some(b""));
    assert!(step.bytes.is_empty());
    assert_eq!(step.end, Some(Delivery::Complete));
    let step = stream_step(true, None);
    assert!(step.bytes.is_empty());
    assert_eq!(step.end, Some(Delivery::Broken));
}

#[test]
fn phrases() {
    assert_eq!(reason_phrase(200), "OK");
    assert_eq!(reason_phrase(201), "Created");
    assert_eq!(reason_phrase(304), "Not Modified");
    assert_eq!(reason_phrase(404), "Not Found");
    assert_eq!(reason_phrase(422), "Unprocessable Entity");
    assert_eq!(reason_phrase(429), "Too Many Requests");
    assert_eq!(reason_phrase(504), "Gateway Timeout");
    assert_eq!(reason_phrase(418), "");
}
