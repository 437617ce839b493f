use ollamux::pool::{Pool, State};
use ollamux::usage::{
    judge_response, parse_payload, FetchError, KeyUsage, ModelUsage, Share, Step, UsagePayload,
    UsageSnapshot, UsageTracker, UsageWindow, MIN_REFRESH, USAGE_TTL,
};

const MS: u64 = 1_000_000;
const SEC: u64 = 1_000_000_000;

type Fetch = dyn FnMut() -> Result<UsagePayload, FetchError>;

fn share(f: f64) -> Share {
    Share {
        raw: f.to_bits(),
        permille: (f * 1000.0).clamp(0.0, 1000.0) as u32,
        pct_x10: (f.clamp(0.0, 1.0) * 1000.0).round() as u32,
    }
}

fn window(usage: Option<f64>) -> UsageWindow {
    UsageWindow {
        usage: usage.map(share),
        models: Vec::new(),
    }
}

fn payload(session: Option<f64>, weekly: Option<f64>) -> UsagePayload {
    UsagePayload {
        session: window(session),
        weekly: window(weekly),
        cost: None,
    }
}

fn one_key(secret: &str) -> Pool {
    Pool::new(vec![(secret.to_string(), 1)], 4, false)
}

/// Does what a tracker's holder does: runs the round that a step asks for.
fn follow(t: &mut UsageTracker, p: &mut Pool, step: Step, now: u64, fetch: &mut Fetch) {
    match step {
        Step::Serve => {}
        Step::Fetch => {
            let fetched = (0..p.len()).map(|_| Some(fetch())).collect();
            t.finish(p, fetched, now);
        }
        Step::Wait => panic!("nobody else is fetching"),
    }
}

fn get(t: &mut UsageTracker, p: &mut Pool, now: u64, fetch: &mut Fetch) {
    let step = t.get(now);
    follow(t, p, step, now, fetch);
}

fn refresh(t: &mut UsageTracker, p: &mut Pool, now: u64, fetch: &mut Fetch) {
    let step = t.refresh(now);
    follow(t, p, step, now, fetch);
}

fn error_of(t: &UsageTracker) -> String {
    let row = &t.peek().unwrap().keys[0];
    assert!(!row.ok);
    row.error.clone().unwrap()
}

fn error_for(e: FetchError) -> String {
    let mut p = one_key("omk-usage-er1");
    let mut t = UsageTracker::new("https://ollama.com");
    assert_eq!(t.get(0), Step::Fetch);
    t.finish(&mut p, vec![Some(Err(e))], 0);
    error_of(&t)
}

#[test]
fn drift_is_reported_not_panic() {
    // A body that does not decode surfaces as a failure.
    let mut p = one_key("omk-usage-drift");
    let mut t = UsageTracker::new("https://ollama.com");
    get(&mut t, &mut p, 0, &mut || {
        Err(FetchError::Network(
            "endpoint changed (unexpected payload): eof".to_string(),
        ))
    });
    assert!(error_of(&t).contains("endpoint changed"));
}

#[test]
fn parse_errors_never_echo_body_content() {
    // What is said of a body that does not decode, and of one without
    // figures, is the same whatever the body holds.
    let err = parse_payload(None).unwrap_err();
    assert!(!err.contains("omk-secret1234"));
    assert!(err.contains("endpoint changed"));
    assert_eq!(err, "endpoint changed (unexpected payload)");
    let mut secretive = payload(None, None);
    secretive.cost = Some("Bearer omk-secret1234".to_string());
    let err = parse_payload(Some(secretive)).unwrap_err();
    assert_eq!(err, "endpoint changed (no usage data in payload)");
}

#[test]
fn payload_without_figures_is_not_plausible() {
    let p = payload(None, None);
    assert_eq!(p.session.usage, None);
    assert!(p.session.models.is_empty());
    // Absence of all numbers is drift, not zeros.
    assert!(!p.plausible());
    assert!(payload(Some(0.0), None).plausible());
    assert!(payload(None, Some(0.5)).plausible());
}

#[test]
fn responses_other_than_200_fail() {
    assert!(judge_response(200, Some(payload(Some(0.5), None))).is_ok());
    assert!(matches!(
        judge_response(302, Some(payload(Some(0.5), None))),
        Err(FetchError::Status(302))
    ));
    assert!(matches!(
        judge_response(200, None),
        Err(FetchError::Network(ref e)) if e == "endpoint changed (unexpected payload)"
    ));
    assert!(matches!(
        judge_response(200, Some(payload(None, None))),
        Err(FetchError::Network(ref e)) if e == "endpoint changed (no usage data in payload)"
    ));
}

#[test]
fn fetch_maps_status_and_network_errors() {
    assert_eq!(
        error_for(FetchError::Status(429)),
        "rate limited (upstream 429)"
    );
    assert_eq!(error_for(FetchError::Status(401)), "unauthorized");
    assert_eq!(error_for(FetchError::Status(403)), "unauthorized");
    assert_eq!(
        error_for(FetchError::Status(404)),
        "endpoint gone (upstream 404)"
    );
    assert_eq!(error_for(FetchError::Status(500)), "upstream HTTP 500");
    assert_eq!(
        error_for(FetchError::Network("boom".to_string())),
        "network: boom"
    );
}

#[test]
fn rows_without_a_result_say_so() {
    let mut p = one_key("omk-usage-none");
    let mut t = UsageTracker::new("https://ollama.com");
    assert_eq!(t.get(0), Step::Fetch);
    t.finish(&mut p, vec![None], 0);
    assert_eq!(error_of(&t), "network: no result");
}

#[test]
fn get_serves_fresh_then_refetches_after_ttl() {
    let mut calls = 0;
    let mut p = one_key("omk-usage-ttl1");
    let mut t = UsageTracker::new("https://ollama.com").with_ttl(50 * MS);
    for (now, expected) in [(0, Step::Fetch), (10 * MS, Step::Serve), (80 * MS, Step::Fetch)] {
        let step = t.get(now);
        assert_eq!(step, expected, "at {now}");
        if step == Step::Fetch {
            calls += 1;
            t.finish(&mut p, vec![Some(Ok(payload(Some(0.25), None)))], now);
        }
    }
    assert_eq!(calls, 2);
    // Fresh means younger than the TTL.
    assert_eq!(t.get(80 * MS + 50 * MS - 1), Step::Serve);
    assert_eq!(t.get(80 * MS + 50 * MS), Step::Fetch);
}

#[test]
fn single_flight_burst_is_one_fetch() {
    let mut p = one_key("omk-usage-sf01");
    let mut t = UsageTracker::new("https://ollama.com");
    // A burst of eight: one fetches, seven wait.
    assert_eq!(t.get(0), Step::Fetch);
    for _ in 0..7 {
        assert_eq!(t.get(0), Step::Wait);
    }
    assert_eq!(t.refresh(0), Step::Wait);
    assert_eq!(t.wait_for_snapshot(), Step::Wait);
    assert!(!t.tick(0));
    t.finish(&mut p, vec![Some(Ok(payload(None, Some(0.1))))], 50 * MS);
    for _ in 0..7 {
        assert_eq!(
            t.wait_for_snapshot(),
            Step::Serve,
            "concurrent callers must share one fetch"
        );
    }
    // While a later round is under way, the snapshot is served however old.
    assert_eq!(t.get(USAGE_TTL * 2), Step::Fetch);
    assert_eq!(t.get(USAGE_TTL * 2), Step::Serve);
    // A waiter that finds neither becomes the one that fetches.
    let mut t = UsageTracker::new("https://ollama.com");
    assert_eq!(t.get(0), Step::Fetch);
    t.abandon(1);
    assert_eq!(t.wait_for_snapshot(), Step::Fetch);
}

#[test]
fn failed_refresh_keeps_previous_snapshot() {
    let mut p = one_key("omk-usage-keep");
    let mut t = UsageTracker::new("https://ollama.com").with_ttl(20 * MS);
    get(&mut t, &mut p, 0, &mut || Ok(payload(Some(0.5), None)));
    assert!(t.peek().unwrap().keys[0].ok);
    // The stale path fetches, fails, and the good snapshot survives.
    get(&mut t, &mut p, 40 * MS, &mut || {
        Err(FetchError::Network("boom".to_string()))
    });
    let again = &t.peek().unwrap().keys[0];
    assert!(again.ok, "failed refresh must keep good data");
    assert_eq!(again.session, Some(share(0.5)));
    assert_eq!(t.peek().unwrap().fetched_at, 0);
}

#[test]
fn failed_round_keeps_demotions() {
    let mut p = one_key("omk-usage-keep");
    p.set_usage_threshold(80);
    let mut t = UsageTracker::new("https://ollama.com");
    get(&mut t, &mut p, 0, &mut || Ok(payload(Some(0.9), None)));
    assert!(p.is_over_quota(0));
    get(&mut t, &mut p, USAGE_TTL, &mut || {
        Err(FetchError::Status(429))
    });
    assert!(p.is_over_quota(0));
    get(&mut t, &mut p, 2 * USAGE_TTL, &mut || {
        Ok(payload(Some(0.7), None))
    });
    assert!(!p.is_over_quota(0));
}

#[test]
fn peek_never_fetches() {
    let mut t = UsageTracker::new("https://ollama.com");
    assert!(t.peek().is_none());
    // Nothing was started: the first to ask is the one that fetches.
    assert_eq!(t.get(0), Step::Fetch);
}

#[test]
fn failing_keys_surface_as_errors_with_state_untouched() {
    let mut p = one_key("omk-usage-dead1");
    let mut t = UsageTracker::new("https://ollama.com");
    get(&mut t, &mut p, 0, &mut || Err(FetchError::Status(401)));
    let snap = t.peek().unwrap();
    assert!(!snap.keys[0].ok);
    assert_eq!(snap.keys[0].error.as_deref(), Some("unauthorized"));
    assert_eq!(snap.keys[0].suffix, "ead1");
    // Usage introspection must not touch key health: still up.
    assert_eq!(p.info(0)[0].state, State::Up);
}

#[test]
fn min_refresh_guards_forced_refresh() {
    let mut p = one_key("omk-usage-min1");
    let mut t = UsageTracker::new("https://ollama.com").with_ttl(0);
    refresh(&mut t, &mut p, 0, &mut || Ok(payload(Some(0.1), None)));
    // Inside the window: no second fetch.
    assert_eq!(t.refresh(0), Step::Serve);
    assert_eq!(t.refresh(MIN_REFRESH - 1), Step::Serve);
    // A TTL of zero is always stale: get fetches (it is not guarded).
    assert_eq!(t.get(0), Step::Fetch);
}

#[test]
fn refresh_guard_counts_attempts() {
    let mut p = one_key("omk-usage-min2");
    let mut t = UsageTracker::new("https://ollama.com");
    refresh(&mut t, &mut p, 0, &mut || Ok(payload(Some(0.1), None)));
    // A failed round starts the window over, though the snapshot is older.
    refresh(&mut t, &mut p, MIN_REFRESH, &mut || {
        Err(FetchError::Status(500))
    });
    assert_eq!(t.peek().unwrap().fetched_at, 0);
    assert_eq!(t.refresh(2 * MIN_REFRESH - 1), Step::Serve);
    assert_eq!(t.refresh(2 * MIN_REFRESH), Step::Fetch);
}

#[test]
fn poller_runs_a_round_when_the_snapshot_is_stale() {
    let mut p = one_key("omk-usage-tick");
    let mut t = UsageTracker::new("https://ollama.com");
    assert!(t.tick(0));
    t.finish(&mut p, vec![Some(Ok(payload(Some(0.1), None)))], SEC);
    assert!(!t.tick(USAGE_TTL));
    assert!(t.tick(USAGE_TTL + SEC));
    assert!(!t.tick(USAGE_TTL + SEC), "a round is under way");
}

#[test]
fn rows_hold_the_payload() {
    let mut p = Pool::new(
        vec![("omk-abcd1234".to_string(), 1), ("omk-efgh5678".to_string(), 1)],
        4,
        false,
    );
    let mut t = UsageTracker::new("https://ollama.com/");
    assert_eq!(t.url(), "https://ollama.com/api/usage");
    assert_eq!(t.get(0), Step::Fetch);
    let full = UsagePayload {
        session: UsageWindow {
            usage: Some(share(0.037)),
            models: vec![ModelUsage {
                name: "gpt-oss:120b".to_string(),
                request_count: 42,
            }],
        },
        weekly: window(Some(0.007)),
        cost: Some("$1.23".to_string()),
    };
    t.finish(
        &mut p,
        vec![Some(Ok(full)), Some(Err(FetchError::Status(503)))],
        7,
    );
    let snap = t.peek().unwrap();
    assert_eq!(snap.fetched_at, 7);
    let row = &snap.keys[0];
    assert_eq!((row.index, row.suffix.as_str(), row.ok), (0, "1234", true));
    assert_eq!(row.status, Some(200));
    assert_eq!(row.session.map(|s| f64::from_bits(s.raw)), Some(0.037));
    assert_eq!((row.session_pct, row.weekly_pct), (Some(37), Some(7)));
    assert_eq!(row.models[0].name, "gpt-oss:120b");
    assert_eq!(row.models[0].request_count, 42);
    assert_eq!(row.cost.as_deref(), Some("$1.23"));
    assert_eq!(row.error, None);
    let failed = &snap.keys[1];
    assert_eq!((failed.index, failed.ok, failed.status), (1, false, None));
    assert_eq!(failed.error.as_deref(), Some("upstream HTTP 503"));
    assert!(failed.models.is_empty());
}

#[test]
fn rows_show_only_suffixes() {
    let rows = |secret: &str| {
        let mut p = one_key(secret);
        let mut t = UsageTracker::new("https://ollama.com");
        get(&mut t, &mut p, 0, &mut || Ok(payload(Some(0.5), None)));
        format!("{:?}", t.peek().unwrap())
    };
    assert_eq!(rows("omk-secret-1234"), rows("another-1234"));
    assert_ne!(rows("omk-secret-1234"), rows("omk-secret-1235"));
}

#[test]
fn ages_are_told_in_seconds() {
    let snap = UsageSnapshot::for_test(Vec::new(), 10 * SEC);
    assert_eq!(snap.age_s(10 * SEC), 0);
    assert_eq!(snap.age_s(13 * SEC + 999 * MS), 3);
    assert_eq!(snap.age_s(0), 0);
    assert_eq!(snap.updated_unix(13 * SEC, 1_756_620_003), 1_756_620_000);
    assert_eq!(snap.updated_unix(13 * SEC, 2), 0);
    assert!(!snap.is_stale(10 * SEC + USAGE_TTL - 1));
    assert!(snap.is_stale(10 * SEC + USAGE_TTL));
}

#[test]
fn missing_rows_are_failures() {
    let snap = UsageSnapshot::for_test(vec![KeyUsage::for_test(0, None)], 0);
    let rows = snap.missing_rows(3);
    assert_eq!(rows.len(), 2);
    assert_eq!(rows[0].index, 1);
    assert_eq!(rows[1].index, 2);
    for row in &rows {
        assert_eq!(row.suffix, "?");
        assert!(!row.ok);
        assert_eq!(row.error.as_deref(), Some("no usage data"));
    }
    assert!(snap.missing_rows(1).is_empty());
    assert!(snap.missing_rows(0).is_empty());
}
