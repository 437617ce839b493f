//! Usage introspection: what each key's account has used of its plan.
//!
//! The upstream endpoint is undocumented and may change at any time, so
//! whatever does not decode is a per-key error and nothing worse. A usage
//! figure is a fraction of the plan's cap; it is held here as the integers
//! that routing compares and that a reader is shown.

use vstd::prelude::*;
use vstd::string::*;

use crate::affinity::opt_chars;
use crate::config;
use crate::model::{alike, over_threshold, PoolView};
use crate::pool::Pool;
use crate::text;

verus! {

/// A snapshot younger than this is served as it is.
pub const USAGE_TTL: u64 = 60_000_000_000;

/// Least time between the end of a round of fetches and a forced one.
pub const MIN_REFRESH: u64 = 5_000_000_000;

/// What is said of the session window beside the figures.
pub const SESSION_WINDOW: &'static str = "about 5 hours (rolling; no reset timestamps upstream)";

/// A fraction of a plan's cap.
#[derive(Debug, Clone, Copy, PartialEq, Eq, Structural)]
pub struct Share {
    /// The fraction as it came, as a bit pattern. It is carried, never read.
    pub raw: u64,
    /// The fraction in thousandths, rounded down, between 0 and 1000.
    pub permille: u32,
    /// The fraction in tenths of a percent, rounded to nearest, between 0 and
    /// 1000.
    pub pct_x10: u32,
}

/// One model's request tally inside a usage window.
#[derive(Debug)]
pub struct ModelUsage {
    pub name: String,
    pub request_count: u64,
}

/// One metered window. A figure that the upstream left out stays absent.
#[derive(Debug)]
pub struct UsageWindow {
    pub usage: Option<Share>,
    /// Top models of the window.
    pub models: Vec<ModelUsage>,
}

/// A decoded payload of the usage endpoint.
#[derive(Debug)]
pub struct UsagePayload {
    pub session: UsageWindow,
    pub weekly: UsageWindow,
    /// The 4-week rolling cost, as it came.
    pub cost: Option<String>,
}

/// Why a key's usage could not be fetched. An upstream error has a status and
/// no text.
#[derive(Debug)]
pub enum FetchError {
    /// The upstream answered with an HTTP error status.
    Status(u16),
    /// Transport failure, or a payload that was not understood.
    Network(String),
}

/// One per-key fetch outcome. What an upstream error says is never in it: that
/// text could hold the key.
#[derive(Debug)]
pub struct KeyUsage {
    pub index: usize,
    pub suffix: String,
    pub ok: bool,
    pub status: Option<u16>,
    pub session: Option<Share>,
    pub weekly: Option<Share>,
    /// Tenths of a percent.
    pub session_pct: Option<u32>,
    /// Tenths of a percent.
    pub weekly_pct: Option<u32>,
    pub models: Vec<ModelUsage>,
    pub cost: Option<String>,
    pub error: Option<String>,
}

/// One round of fetches: element `i` describes key `i`.
#[derive(Debug)]
pub struct UsageSnapshot {
    /// When the round completed, on the clock that all times are on.
    pub fetched_at: u64,
    pub keys: Vec<KeyUsage>,
}

/// `session` is at or over `threshold` (tenths of a percent).
pub open spec fn at_threshold(session: Option<Share>, threshold: int) -> bool {
    session is Some && session->0.permille >= threshold
}

// ---------------------------------------------------------------------------
// Mathematical values
// ---------------------------------------------------------------------------

/// A model's name and its tally.
pub type ModelView = (Seq<char>, u64);

pub open spec fn model_views(models: Seq<ModelUsage>) -> Seq<ModelView> {
    models.map_values(|m: ModelUsage| (m.name@, m.request_count))
}

#[verifier::ext_equal]
pub struct WindowView {
    pub usage: Option<Share>,
    pub models: Seq<ModelView>,
}

#[verifier::ext_equal]
pub struct PayloadView {
    pub session: WindowView,
    pub weekly: WindowView,
    pub cost: Option<Seq<char>>,
}

pub enum FetchErrorView {
    Status(u16),
    Network(Seq<char>),
}

#[verifier::ext_equal]
pub struct RowView {
    pub index: int,
    pub suffix: Seq<char>,
    pub ok: bool,
    pub status: Option<u16>,
    pub session: Option<Share>,
    pub weekly: Option<Share>,
    pub session_pct: Option<u32>,
    pub weekly_pct: Option<u32>,
    pub models: Seq<ModelView>,
    pub cost: Option<Seq<char>>,
    pub error: Option<Seq<char>>,
}

#[verifier::ext_equal]
pub struct SnapshotView {
    pub fetched_at: int,
    pub rows: Seq<RowView>,
}

impl View for UsageWindow {
    type V = WindowView;

    open spec fn view(&self) -> WindowView {
        WindowView { usage: self.usage, models: model_views(self.models@) }
    }
}

impl View for UsagePayload {
    type V = PayloadView;

    open spec fn view(&self) -> PayloadView {
        PayloadView {
            session: self.session@,
            weekly: self.weekly@,
            cost: opt_chars(self.cost),
        }
    }
}

impl View for FetchError {
    type V = FetchErrorView;

    open spec fn view(&self) -> FetchErrorView {
        match self {
            FetchError::Status(code) => FetchErrorView::Status(*code),
            FetchError::Network(e) => FetchErrorView::Network(e@),
        }
    }
}

impl View for KeyUsage {
    type V = RowView;

    open spec fn view(&self) -> RowView {
        RowView {
            index: self.index as int,
            suffix: self.suffix@,
            ok: self.ok,
            status: self.status,
            session: self.session,
            weekly: self.weekly,
            session_pct: self.session_pct,
            weekly_pct: self.weekly_pct,
            models: model_views(self.models@),
            cost: opt_chars(self.cost),
            error: opt_chars(self.error),
        }
    }
}

pub open spec fn row_views(rows: Seq<KeyUsage>) -> Seq<RowView> {
    rows.map_values(|row: KeyUsage| row@)
}

impl View for UsageSnapshot {
    type V = SnapshotView;

    open spec fn view(&self) -> SnapshotView {
        SnapshotView { fetched_at: self.fetched_at as int, rows: row_views(self.keys@) }
    }
}

// ---------------------------------------------------------------------------
// Payloads
// ---------------------------------------------------------------------------

/// There is a figure for one window at least. A payload without any is not one
/// of all zeros: the endpoint has changed.
pub open spec fn is_plausible(p: PayloadView) -> bool {
    p.session.usage is Some || p.weekly.usage is Some
}

pub const NO_USAGE_DATA: &'static str = "endpoint changed (no usage data in payload)";

pub const UNEXPECTED_PAYLOAD: &'static str = "endpoint changed (unexpected payload)";

impl UsagePayload {
    /// Whether the payload has a figure that can be used.
    pub fn plausible(&self) -> (r: bool)
        ensures
            r == is_plausible(self@),
    {
        self.session.usage.is_some() || self.weekly.usage.is_some()
    }
}

/// What comes of a body: `decoded` is what it decodes to, if it does. The
/// error text says what is wrong and quotes nothing of the body.
pub fn parse_payload(decoded: Option<UsagePayload>) -> (r: Result<UsagePayload, String>)
    ensures
        match decoded {
            Some(p) => if is_plausible(p@) {
                r == Ok::<UsagePayload, String>(p)
            } else {
                r is Err && r->Err_0@ == NO_USAGE_DATA@
            },
            None => r is Err && r->Err_0@ == UNEXPECTED_PAYLOAD@,
        },
{
    match decoded {
        Some(p) => if p.plausible() {
            Ok(p)
        } else {
            Err(NO_USAGE_DATA.to_owned())
        },
        None => Err(UNEXPECTED_PAYLOAD.to_owned()),
    }
}

/// A response with `status` whose body decodes to `decoded`, if it does, has
/// data.
pub open spec fn has_data(status: u16, decoded: Option<UsagePayload>) -> bool {
    status == 200 && decoded is Some && is_plausible(decoded->0@)
}

/// What comes of a response with `status` whose body decodes to `decoded`, if
/// it does: anything but a 200 is a failure with that status.
pub fn judge_response(status: u16, decoded: Option<UsagePayload>) -> (r: Result<
    UsagePayload,
    FetchError,
>)
    ensures
        r is Ok <==> has_data(status, decoded),
        status != 200 ==> r == Err::<UsagePayload, FetchError>(FetchError::Status(status)),
        status == 200 ==> match decoded {
            Some(p) => if is_plausible(p@) {
                r == Ok::<UsagePayload, FetchError>(p)
            } else {
                r is Err && r->Err_0@ == FetchErrorView::Network(NO_USAGE_DATA@)
            },
            None => r is Err && r->Err_0@ == FetchErrorView::Network(UNEXPECTED_PAYLOAD@),
        },
{
    if status != 200 {
        return Err(FetchError::Status(status));
    }
    match parse_payload(decoded) {
        Ok(p) => Ok(p),
        Err(e) => Err(FetchError::Network(e)),
    }
}

// ---------------------------------------------------------------------------
// Rows
// ---------------------------------------------------------------------------

/// A row that says only what went wrong.
pub open spec fn failed_row(index: int, suffix: Seq<char>, error: Seq<char>) -> RowView {
    RowView {
        index,
        suffix,
        ok: false,
        status: None,
        session: None,
        weekly: None,
        session_pct: None,
        weekly_pct: None,
        models: seq![],
        cost: None,
        error: Some(error),
    }
}

/// The figure as a reader is shown it, in tenths of a percent.
pub open spec fn pct_of(share: Option<Share>) -> Option<u32> {
    match share {
        Some(s) => Some(s.pct_x10),
        None => None,
    }
}

/// The row of a key whose payload came.
pub open spec fn data_row(index: int, suffix: Seq<char>, p: PayloadView) -> RowView {
    RowView {
        index,
        suffix,
        ok: true,
        status: Some(200),
        session: p.session.usage,
        weekly: p.weekly.usage,
        session_pct: pct_of(p.session.usage),
        weekly_pct: pct_of(p.weekly.usage),
        models: p.session.models,
        cost: p.cost,
        error: None,
    }
}

/// What a row says of `e`.
pub open spec fn error_text(e: FetchErrorView) -> Seq<char> {
    match e {
        FetchErrorView::Status(code) => if code == 401 || code == 403 {
            "unauthorized"@
        } else if code == 404 {
            "endpoint gone (upstream 404)"@
        } else if code == 429 {
            "rate limited (upstream 429)"@
        } else {
            "upstream HTTP "@ + text::decimal(code as nat)
        },
        FetchErrorView::Network(text) => "network: "@ + text,
    }
}

/// What became of the fetch for one key, if anything.
pub type Fetched = Option<Result<UsagePayload, FetchError>>;

/// The row of one key.
pub open spec fn row_of(index: int, suffix: Seq<char>, fetched: Fetched) -> RowView {
    match fetched {
        Some(Ok(p)) => data_row(index, suffix, p@),
        Some(Err(e)) => failed_row(index, suffix, error_text(e@)),
        None => failed_row(
            index,
            suffix,
            error_text(FetchErrorView::Network("no result"@)),
        ),
    }
}

/// The rows of a round of fetches, in the order of `keys`.
pub open spec fn rows_of(keys: Seq<Seq<char>>, fetched: Seq<Fetched>) -> Seq<RowView> {
    Seq::new(keys.len(), |i: int| row_of(i, config::suffix_of(keys[i]), fetched[i]))
}

/// No row has data.
pub open spec fn none_ok(rows: Seq<RowView>) -> bool {
    forall|i: int| 0 <= i < rows.len() ==> !(#[trigger] rows[i]).ok
}

impl FetchError {
    /// What a row says of the failure.
    fn describe(&self) -> (r: String)
        ensures
            r@ == error_text(self@),
    {
        match self {
            FetchError::Status(code) => {
                let code: u16 = *code;
                if code == 401 || code == 403 {
                    "unauthorized".to_owned()
                } else if code == 404 {
                    "endpoint gone (upstream 404)".to_owned()
                } else if code == 429 {
                    "rate limited (upstream 429)".to_owned()
                } else {
                    let mut s = "upstream HTTP ".to_owned();
                    s.append(text::to_decimal(code as u64).as_str());
                    s
                }
            },
            FetchError::Network(e) => {
                let mut s = "network: ".to_owned();
                s.append(e.as_str());
                s
            },
        }
    }
}

/// The figure as a reader is shown it, in tenths of a percent.
fn pct(share: Option<Share>) -> (r: Option<u32>)
    ensures
        r == pct_of(share),
{
    match share {
        Some(s) => Some(s.pct_x10),
        None => None,
    }
}

impl KeyUsage {
    /// A row that says only what went wrong.
    pub fn failed(index: usize, suffix: String, error: String) -> (r: KeyUsage)
        ensures
            r@ == failed_row(index as int, suffix@, error@),
    {
        let r = KeyUsage {
            index,
            suffix,
            ok: false,
            status: None,
            session: None,
            weekly: None,
            session_pct: None,
            weekly_pct: None,
            models: Vec::new(),
            cost: None,
            error: Some(error),
        };
        assert(r@ =~= failed_row(index as int, suffix@, error@));
        r
    }

    /// A row with one figure for both windows, for fixtures.
    pub fn for_test(index: usize, session: Option<Share>) -> (r: KeyUsage)
        ensures
            r@ == (RowView {
                index: index as int,
                suffix: "sfx"@ + text::decimal(index as nat),
                ok: session is Some,
                status: if session is Some {
                    Some(200)
                } else {
                    None
                },
                session,
                weekly: session,
                session_pct: pct_of(session),
                weekly_pct: pct_of(session),
                models: seq![],
                cost: None,
                error: None,
            }),
    {
        let mut suffix = "sfx".to_owned();
        suffix.append(text::to_decimal(index as u64).as_str());
        let r = KeyUsage {
            index,
            suffix,
            ok: session.is_some(),
            status: if session.is_some() {
                Some(200)
            } else {
                None
            },
            session,
            weekly: session,
            session_pct: pct(session),
            weekly_pct: pct(session),
            models: Vec::new(),
            cost: None,
            error: None,
        };
        assert(r@.models =~= seq![]);
        r
    }

    /// The row of key `index`.
    fn of(index: usize, suffix: String, fetched: Fetched) -> (r: KeyUsage)
        ensures
            r@ == row_of(index as int, suffix@, fetched),
    {
        match fetched {
            Some(Ok(p)) => {
                let UsagePayload { session, weekly, cost } = p;
                KeyUsage {
                    index,
                    suffix,
                    ok: true,
                    status: Some(200),
                    session: session.usage,
                    weekly: weekly.usage,
                    session_pct: pct(session.usage),
                    weekly_pct: pct(weekly.usage),
                    models: session.models,
                    cost,
                    error: None,
                }
            },
            Some(Err(e)) => KeyUsage::failed(index, suffix, e.describe()),
            None => KeyUsage::failed(
                index,
                suffix,
                FetchError::Network("no result".to_owned()).describe(),
            ),
        }
    }
}

// ---------------------------------------------------------------------------
// Snapshots
// ---------------------------------------------------------------------------

/// How long before `now` the instant `t` lies, or 0.
pub open spec fn elapsed(t: int, now: int) -> int {
    if now > t {
        now - t
    } else {
        0
    }
}

impl UsageSnapshot {
    /// A snapshot with the given rows, for fixtures.
    pub fn for_test(keys: Vec<KeyUsage>, fetched_at: u64) -> (r: UsageSnapshot)
        ensures
            r.keys == keys,
            r.fetched_at == fetched_at,
    {
        UsageSnapshot { fetched_at, keys }
    }

    /// Seconds since the round completed.
    pub fn age_s(&self, now: u64) -> (r: u64)
        ensures
            r == elapsed(self.fetched_at as int, now as int) / 1_000_000_000,
    {
        if now > self.fetched_at {
            (now - self.fetched_at) / 1_000_000_000
        } else {
            0
        }
    }

    /// When the round completed, in Unix seconds; `now_unix` is the Unix time
    /// at `now`.
    pub fn updated_unix(&self, now: u64, now_unix: u64) -> (r: u64)
        ensures
            r == if now_unix >= elapsed(self.fetched_at as int, now as int) / 1_000_000_000 {
                now_unix - elapsed(self.fetched_at as int, now as int) / 1_000_000_000
            } else {
                0
            },
    {
        let age: u64 = self.age_s(now);
        if now_unix >= age {
            now_unix - age
        } else {
            0
        }
    }

    /// Whether a reader is told that the figures are stale.
    pub fn is_stale(&self, now: u64) -> (r: bool)
        ensures
            r == (elapsed(self.fetched_at as int, now as int) >= USAGE_TTL),
    {
        self.age_s(now) >= USAGE_TTL / 1_000_000_000
    }

    /// Rows for the keys before `expected` that the snapshot has none for.
    pub fn missing_rows(&self, expected: usize) -> (r: Vec<KeyUsage>)
        ensures
            row_views(r@) == missing(self.keys@.len() as int, expected as int),
    {
        let mut r: Vec<KeyUsage> = Vec::new();
        let mut i: usize = self.keys.len();
        while i < expected
            invariant
                self.keys@.len() <= i,
                i <= expected || r@.len() == 0,
                r@.len() == i - self.keys@.len(),
                forall|j: int|
                    0 <= j < r@.len() ==> (#[trigger] r@[j])@ == failed_row(
                        self.keys@.len() + j,
                        "?"@,
                        "no usage data"@,
                    ),
            decreases expected - i,
        {
            r.push(KeyUsage::failed(i, "?".to_owned(), "no usage data".to_owned()));
            i = i + 1;
        }
        assert(row_views(r@) =~= missing(self.keys@.len() as int, expected as int));
        r
    }
}

/// Rows for the keys from `have` on, before `expected`.
pub open spec fn missing(have: int, expected: int) -> Seq<RowView> {
    Seq::new(
        if expected > have {
            (expected - have) as nat
        } else {
            0
        },
        |j: int| failed_row(have + j, "?"@, "no usage data"@),
    )
}

// ---------------------------------------------------------------------------
// Tracker
// ---------------------------------------------------------------------------

/// The latest snapshot, and whether a round of fetches is under way. The
/// rounds themselves are the caller's: it is told when to run one, and hands
/// in what came of it.
pub struct UsageTracker {
    /// The upstream, without a slash at the end.
    base: String,
    ttl: u64,
    snapshot: Option<UsageSnapshot>,
    /// When the latest round ended, however it did.
    last_attempt: Option<u64>,
    fetching: bool,
}

#[verifier::ext_equal]
pub struct TrackerView {
    pub base: Seq<char>,
    pub ttl: int,
    pub snapshot: Option<SnapshotView>,
    pub last_attempt: Option<int>,
    pub fetching: bool,
}

impl View for UsageTracker {
    type V = TrackerView;

    closed spec fn view(&self) -> TrackerView {
        TrackerView {
            base: self.base@,
            ttl: self.ttl as int,
            snapshot: match self.snapshot {
                Some(s) => Some(s@),
                None => None,
            },
            last_attempt: match self.last_attempt {
                Some(t) => Some(t as int),
                None => None,
            },
            fetching: self.fetching,
        }
    }
}

/// What a caller that wants figures does next.
#[derive(Debug, Clone, Copy, PartialEq, Eq, Structural)]
pub enum Step {
    /// Take the latest snapshot.
    Serve,
    /// Run a round of fetches, and hand it in with `finish`.
    Fetch,
    /// Wait for the round under way, and ask again.
    Wait,
}

/// The latest snapshot is young enough to be served at `now`.
pub open spec fn is_fresh(t: TrackerView, now: int) -> bool {
    t.snapshot is Some && elapsed(t.snapshot->0.fetched_at, now) < t.ttl
}

/// The latest round ended too short a time before `now` for a forced one.
pub open spec fn attempted_lately(t: TrackerView, now: int) -> bool {
    t.last_attempt is Some && elapsed(t.last_attempt->0, now) < MIN_REFRESH
}

/// What `get` says at `now`.
pub open spec fn get_step(t: TrackerView, now: int) -> Step {
    if is_fresh(t, now) {
        Step::Serve
    } else if !t.fetching {
        Step::Fetch
    } else if t.snapshot is Some {
        Step::Serve
    } else {
        Step::Wait
    }
}

/// What `wait_for_snapshot` says.
pub open spec fn waiter_step(t: TrackerView) -> Step {
    if t.fetching {
        Step::Wait
    } else if t.snapshot is Some {
        Step::Serve
    } else {
        Step::Fetch
    }
}

/// What `refresh` says at `now`.
pub open spec fn refresh_step(t: TrackerView, now: int) -> Step {
    if t.fetching {
        Step::Wait
    } else if t.snapshot is Some && attempted_lately(t, now) {
        Step::Serve
    } else {
        Step::Fetch
    }
}

/// `t` once its holder has been told `step`.
pub open spec fn told(t: TrackerView, step: Step) -> TrackerView {
    if step == Step::Fetch {
        TrackerView { fetching: true, ..t }
    } else {
        t
    }
}

/// A round in which no key had data keeps the snapshot that there is.
pub open spec fn keeps_snapshot(t: TrackerView, rows: Seq<RowView>) -> bool {
    none_ok(rows) && t.snapshot is Some
}

/// `t` after a round that ended at `now` with `rows`.
pub open spec fn finished(t: TrackerView, rows: Seq<RowView>, now: int) -> TrackerView {
    TrackerView {
        snapshot: if keeps_snapshot(t, rows) {
            t.snapshot
        } else {
            Some(SnapshotView { fetched_at: now, rows })
        },
        last_attempt: Some(now),
        fetching: false,
        ..t
    }
}

/// `t` after a round that ended at `now` with nothing.
pub open spec fn abandoned(t: TrackerView, now: int) -> TrackerView {
    TrackerView { last_attempt: Some(now), fetching: false, ..t }
}

/// The keys that `rows` show at or over `threshold`.
pub open spec fn rows_over(rows: Seq<RowView>, threshold: int) -> Set<int> {
    Set::new(
        |i: int|
            threshold != 0 && i < 64 && exists|j: int|
                0 <= j < rows.len() && (#[trigger] rows[j]).index == i && at_threshold(
                    rows[j].session,
                    threshold,
                ),
    )
}

/// `p` after a round that ended with `rows`: the pool learns of new figures,
/// and of nothing else.
pub open spec fn notified(p: PoolView, t: TrackerView, rows: Seq<RowView>) -> PoolView {
    if keeps_snapshot(t, rows) {
        p
    } else {
        PoolView { over: rows_over(rows, p.threshold), ..p }
    }
}

proof fn lemma_rows_over(rows: Seq<KeyUsage>, threshold: int)
    ensures
        over_threshold(rows, threshold) == rows_over(row_views(rows), threshold),
{
    let a = over_threshold(rows, threshold);
    let b = rows_over(row_views(rows), threshold);
    assert forall|i: int| a.contains(i) <==> b.contains(i) by {
        if a.contains(i) {
            let j = choose|j: int|
                0 <= j < rows.len() && (#[trigger] rows[j]).index == i && at_threshold(
                    rows[j].session,
                    threshold,
                );
            assert(row_views(rows)[j].index == i);
        }
        if b.contains(i) {
            let j = choose|j: int|
                0 <= j < rows.len() && (#[trigger] row_views(rows)[j]).index == i && at_threshold(
                    row_views(rows)[j].session,
                    threshold,
                );
            assert(rows[j].index == i);
        }
    }
    assert(a =~= b);
}

impl UsageTracker {
    /// A tracker for the usage endpoint of `upstream`, with no snapshot yet.
    pub fn new(upstream: &str) -> (r: UsageTracker)
        ensures
            r@ == (TrackerView {
                base: text::without_trailing(upstream@, '/'),
                ttl: USAGE_TTL as int,
                snapshot: None,
                last_attempt: None,
                fetching: false,
            }),
    {
        UsageTracker {
            base: text::strip_trailing(upstream, '/').to_owned(),
            ttl: USAGE_TTL,
            snapshot: None,
            last_attempt: None,
            fetching: false,
        }
    }

    /// The tracker with another time for which a snapshot is fresh.
    pub fn with_ttl(self, ttl: u64) -> (r: UsageTracker)
        ensures
            r@ == (TrackerView { ttl: ttl as int, ..self@ }),
    {
        UsageTracker {
            base: self.base,
            ttl,
            snapshot: self.snapshot,
            last_attempt: self.last_attempt,
            fetching: self.fetching,
        }
    }

    /// The address that a key's usage is fetched from.
    pub fn url(&self) -> (r: String)
        ensures
            r@ == self@.base + "/api/usage"@,
    {
        let mut s = self.base.clone();
        s.append("/api/usage");
        s
    }

    /// The latest snapshot, if there is one.
    pub fn peek(&self) -> (r: Option<&UsageSnapshot>)
        ensures
            match r {
                Some(s) => self@.snapshot == Some(s@),
                None => self@.snapshot is None,
            },
    {
        match &self.snapshot {
            Some(s) => Some(s),
            None => None,
        }
    }

    /// Figures for a reader: a fresh snapshot, else a round of fetches, else,
    /// while one is under way, a stale snapshot.
    pub fn get(&mut self, now: u64) -> (r: Step)
        ensures
            r == get_step(old(self)@, now as int),
            final(self)@ == told(old(self)@, r),
    {
        if self.fresh(now) {
            Step::Serve
        } else if !self.fetching {
            self.fetching = true;
            Step::Fetch
        } else if self.snapshot.is_some() {
            Step::Serve
        } else {
            Step::Wait
        }
    }

    /// Any snapshot at all, for a reader that was told to wait.
    pub fn wait_for_snapshot(&mut self) -> (r: Step)
        ensures
            r == waiter_step(old(self)@),
            final(self)@ == told(old(self)@, r),
    {
        if self.fetching {
            Step::Wait
        } else if self.snapshot.is_some() {
            Step::Serve
        } else {
            self.fetching = true;
            Step::Fetch
        }
    }

    /// New figures, whatever the age of those at hand, unless a round has just
    /// ended.
    pub fn refresh(&mut self, now: u64) -> (r: Step)
        ensures
            r == refresh_step(old(self)@, now as int),
            final(self)@ == told(old(self)@, r),
    {
        if self.fetching {
            return Step::Wait;
        }
        let lately = match self.last_attempt {
            Some(t) => now <= t || now - t < MIN_REFRESH,
            None => false,
        };
        if self.snapshot.is_some() && lately {
            return Step::Serve;
        }
        self.fetching = true;
        Step::Fetch
    }

    /// One step of the background poller: whether to run a round now.
    pub fn tick(&mut self, now: u64) -> (r: bool)
        ensures
            r == (!is_fresh(old(self)@, now as int) && !old(self)@.fetching),
            r == (get_step(old(self)@, now as int) == Step::Fetch),
            final(self)@ == told(
                old(self)@,
                if r {
                    Step::Fetch
                } else {
                    Step::Serve
                },
            ),
    {
        if self.fresh(now) || self.fetching {
            return false;
        }
        self.fetching = true;
        true
    }

    /// Whether the latest snapshot is fresh.
    fn fresh(&self, now: u64) -> (r: bool)
        ensures
            r == is_fresh(self@, now as int),
    {
        match &self.snapshot {
            Some(s) => if now > s.fetched_at {
                now - s.fetched_at < self.ttl
            } else {
                0 < self.ttl
            },
            None => false,
        }
    }

    /// Ends a round at `now`; `fetched` holds what became of each key's fetch.
    /// Data replaces the snapshot and goes to the pool. A round without any
    /// keeps the snapshot that there is.
    pub fn finish(&mut self, pool: &mut Pool, fetched: Vec<Fetched>, now: u64)
        requires
            old(pool).wf(),
            fetched@.len() == old(pool)@.keys.len(),
        ensures
            final(pool).wf(),
            final(self)@ == finished(old(self)@, rows_of(old(pool)@.keys, fetched@), now as int),
            final(pool)@ == notified(
                old(pool)@,
                old(self)@,
                rows_of(old(pool)@.keys, fetched@),
            ),
    {
        let ghost all = fetched@;
        let ghost keys = pool@.keys;
        proof {
            pool.lemma_wf();
        }
        let mut rows: Vec<KeyUsage> = Vec::new();
        let mut any_ok = false;
        for one in it: fetched
            invariant
                it.seq() == all,
                pool.wf(),
                keys == pool@.keys,
                pool@.states.len() == all.len(),
                keys.len() == all.len(),
                rows@.len() == it.index(),
                any_ok <==> exists|j: int|
                    0 <= j < rows@.len() && (#[trigger] rows@[j]).ok,
                forall|j: int|
                    0 <= j < rows@.len() ==> (#[trigger] rows@[j])@ == row_of(
                        j,
                        config::suffix_of(keys[j]),
                        all[j],
                    ),
        {
            let i: usize = rows.len();
            let row = KeyUsage::of(i, pool.suffix_of(i), one);
            let ghost before = rows@;
            any_ok = any_ok || row.ok;
            rows.push(row);
            proof {
                assert(rows@[i as int] == row);
                if exists|j: int| 0 <= j < before.len() && (#[trigger] before[j]).ok {
                    let j = choose|j: int| 0 <= j < before.len() && (#[trigger] before[j]).ok;
                    assert(rows@[j].ok);
                }
            }
        }
        proof {
            assert(row_views(rows@) =~= rows_of(keys, all));
            assert(none_ok(rows_of(keys, all)) <==> !any_ok) by {
                if any_ok {
                    let j = choose|j: int| 0 <= j < rows@.len() && (#[trigger] rows@[j]).ok;
                    assert(row_views(rows@)[j].ok);
                }
            }
        }
        self.fetching = false;
        self.last_attempt = Some(now);
        if !any_ok && self.snapshot.is_some() {
            return;
        }
        let snap = UsageSnapshot { fetched_at: now, keys: rows };
        pool.publish_usage(&snap);
        proof {
            lemma_rows_over(snap.keys@, old(pool)@.threshold);
        }
        self.snapshot = Some(snap);
    }

    /// Ends a round of which nothing came: nothing but the time is noted.
    pub fn abandon(&mut self, now: u64)
        ensures
            final(self)@ == abandoned(old(self)@, now as int),
            final(self)@ == (TrackerView {
                last_attempt: Some(now as int),
                fetching: false,
                ..old(self)@
            }),
    {
        self.fetching = false;
        self.last_attempt = Some(now);
    }
}

// ---------------------------------------------------------------------------
// Laws
// ---------------------------------------------------------------------------

/// One round at a time: while one is under way, nobody is told to run another.
pub proof fn law_single_flight(t: TrackerView, now: int)
    requires
        t.fetching,
    ensures
        get_step(t, now) != Step::Fetch,
        refresh_step(t, now) != Step::Fetch,
        waiter_step(t) != Step::Fetch,
{
}

/// Within the time that a snapshot is fresh for, figures are served from it.
pub proof fn law_fresh_is_served(t: TrackerView, rows: Seq<RowView>, at: int, now: int)
    requires
        !keeps_snapshot(t, rows),
        elapsed(at, now) < t.ttl,
    ensures
        get_step(finished(t, rows, at), now) == Step::Serve,
{
}

/// A forced refresh within `MIN_REFRESH` of a round serves what there is,
/// whether that round had data or not.
pub proof fn law_refresh_guard_counts_attempts(
    t: TrackerView,
    rows: Seq<RowView>,
    at: int,
    now: int,
)
    requires
        elapsed(at, now) < MIN_REFRESH,
    ensures
        refresh_step(finished(t, rows, at), now) == Step::Serve,
{
}

/// A failed round never overwrites data, and the pool's demotions stay.
pub proof fn law_failed_round_keeps_data(
    t: TrackerView,
    p: PoolView,
    rows: Seq<RowView>,
    now: int,
)
    requires
        none_ok(rows),
        t.snapshot is Some,
    ensures
        finished(t, rows, now).snapshot == t.snapshot,
        notified(p, t, rows) == p,
{
}

/// Usage never touches key health, whatever the round brought.
pub proof fn law_usage_is_read_only(t: TrackerView, p: PoolView, rows: Seq<RowView>)
    ensures
        notified(p, t, rows).states == p.states,
        notified(p, t, rows).pins == p.pins,
        notified(p, t, rows).rr == p.rr,
{
}

/// After a round there is a snapshot: nobody waits for one any more.
pub proof fn law_round_ends_waiting(t: TrackerView, rows: Seq<RowView>, now: int)
    ensures
        waiter_step(finished(t, rows, now)) == Step::Serve,
{
}

/// Rows show no more of a key than its suffix: keys that end alike have the
/// same rows.
pub proof fn law_rows_show_only_suffixes(
    keys: Seq<Seq<char>>,
    others: Seq<Seq<char>>,
    fetched: Seq<Fetched>,
)
    requires
        keys.len() == others.len(),
        forall|i: int|
            0 <= i < keys.len() ==> config::suffix_of(#[trigger] keys[i]) == config::suffix_of(
                others[i],
            ),
    ensures
        rows_of(keys, fetched) == rows_of(others, fetched),
{
    assert(rows_of(keys, fetched) =~= rows_of(others, fetched));
}

/// A round of fetches does not look at secrets either: pools that differ in
/// nothing but secrets that end alike are left so.
pub proof fn law_round_ignores_secrets(
    p: PoolView,
    q: PoolView,
    t: TrackerView,
    fetched: Seq<Fetched>,
)
    requires
        alike(p, q),
    ensures
        alike(
            notified(p, t, rows_of(p.keys, fetched)),
            notified(q, t, rows_of(q.keys, fetched)),
        ),
{
    law_rows_show_only_suffixes(p.keys, q.keys, fetched);
}

/// A round in which some key had data is what is shown from then on: its rows
/// and its time, whatever was shown before and whatever its other rows say. The
/// pool demotes the keys that these rows show at or over the threshold, and no
/// others.
pub proof fn law_data_replaces_the_snapshot(
    t: TrackerView,
    p: PoolView,
    rows: Seq<RowView>,
    i: int,
    now: int,
    key: int,
)
    requires
        0 <= i < rows.len(),
        rows[i].ok,
    ensures
        finished(t, rows, now).snapshot == Some(SnapshotView { fetched_at: now, rows }),
        finished(t, rows, now).last_attempt == Some(now),
        !finished(t, rows, now).fetching,
        notified(p, t, rows).over.contains(key) <==> p.threshold != 0 && key < 64 && exists|j: int|
            0 <= j < rows.len() && (#[trigger] rows[j]).index == key && rows[j].session is Some
                && rows[j].session->0.permille >= p.threshold,
        notified(p, t, rows) == (PoolView { over: notified(p, t, rows).over, ..p }),
{
    let over = notified(p, t, rows).over;
    if over.contains(key) {
        let j = choose|j: int|
            0 <= j < rows.len() && (#[trigger] rows[j]).index == key && at_threshold(
                rows[j].session,
                p.threshold,
            );
        assert(rows[j].session->0.permille >= p.threshold);
    }
    if p.threshold != 0 && key < 64 && exists|j: int|
        0 <= j < rows.len() && (#[trigger] rows[j]).index == key && rows[j].session is Some
            && rows[j].session->0.permille >= p.threshold {
        let j = choose|j: int|
            0 <= j < rows.len() && (#[trigger] rows[j]).index == key && rows[j].session is Some
                && rows[j].session->0.permille >= p.threshold;
        assert(at_threshold(rows[j].session, p.threshold));
    }
}

/// The same of what was fetched: as soon as one key's payload came, the rows
/// are those of this round, one for each key in order, and a key is demoted
/// exactly if its own payload says so.
pub proof fn law_one_payload_is_enough(
    t: TrackerView,
    p: PoolView,
    fetched: Seq<Fetched>,
    i: int,
    now: int,
    key: int,
)
    requires
        fetched.len() == p.keys.len(),
        0 <= i < fetched.len(),
        fetched[i] matches Some(Ok(_)),
        0 <= key < p.keys.len(),
    ensures
        ({
            let rows = rows_of(p.keys, fetched);
            let shown = finished(t, rows, now).snapshot;
            &&& shown is Some
            &&& shown->0.fetched_at == now
            &&& shown->0.rows.len() == p.keys.len()
            &&& shown->0.rows[key].index == key
            &&& shown->0.rows[key].suffix == config::suffix_of(p.keys[key])
            &&& shown->0.rows[key].ok <==> (fetched[key] matches Some(Ok(_)))
            &&& fetched[key] matches Some(Ok(payload)) ==> shown->0.rows[key].session
                == payload.session.usage && shown->0.rows[key].weekly == payload.weekly.usage
            &&& notified(p, t, rows).over.contains(key) <==> p.threshold != 0 && key < 64
                && fetched[key] is Some && fetched[key]->0 is Ok
                && fetched[key]->0->Ok_0.session.usage is Some
                && fetched[key]->0->Ok_0.session.usage->0.permille >= p.threshold
        }),
{
    let rows = rows_of(p.keys, fetched);
    assert(rows[i].ok);
    law_data_replaces_the_snapshot(t, p, rows, i, now, key);
    assert(rows[key].index == key);
    if exists|j: int|
        0 <= j < rows.len() && (#[trigger] rows[j]).index == key && rows[j].session is Some
            && rows[j].session->0.permille >= p.threshold {
        let j = choose|j: int|
            0 <= j < rows.len() && (#[trigger] rows[j]).index == key && rows[j].session is Some
                && rows[j].session->0.permille >= p.threshold;
        assert(j == key);
    }
}

/// A reader is served within the time that figures are fresh for; beyond it a
/// round is run, or what there is served while one is; and a reader waits only
/// where there is nothing to serve yet.
pub proof fn law_when_figures_are_fetched(t: TrackerView, now: int)
    requires
        t.ttl > 0,
    ensures
        ({
            let young = t.snapshot is Some && now < t.snapshot->0.fetched_at + t.ttl;
            &&& get_step(t, now) == Step::Fetch <==> !young && !t.fetching
            &&& get_step(t, now) == Step::Wait <==> t.snapshot is None && t.fetching
            &&& is_fresh(t, now) <==> young
        }),
        waiter_step(t) == Step::Wait <==> t.fetching,
        waiter_step(t) == Step::Serve <==> !t.fetching && t.snapshot is Some,
{
}

/// A forced refresh joins a round that is under way; it serves what there is
/// within five seconds of the end of a round; and else it runs one.
pub proof fn law_when_a_refresh_fetches(t: TrackerView, now: int)
    ensures
        refresh_step(t, now) == Step::Wait <==> t.fetching,
        refresh_step(t, now) == Step::Serve <==> !t.fetching && t.snapshot is Some
            && t.last_attempt is Some && now < t.last_attempt->0 + 5_000_000_000,
{
}

/// Whoever is told to run a round is the only one until it ends.
pub proof fn law_being_told_to_fetch(t: TrackerView, step: Step)
    ensures
        told(t, Step::Fetch).fetching,
        step != Step::Fetch ==> told(t, step) == t,
        told(t, step).snapshot == t.snapshot,
        told(t, step).last_attempt == t.last_attempt,
{
}

/// Figures are fresh for a minute, and rounds can be forced every five seconds.
pub proof fn law_refresh_times()
    ensures
        USAGE_TTL == 60_000_000_000,
        MIN_REFRESH == 5_000_000_000,
{
}

/// Without figures before, the first round is shown whatever it brought.
pub proof fn law_first_round_is_shown(t: TrackerView, rows: Seq<RowView>, now: int)
    requires
        t.snapshot is None,
    ensures
        finished(t, rows, now).snapshot == Some(SnapshotView { fetched_at: now, rows }),
        finished(t, rows, now).last_attempt == Some(now),
        !finished(t, rows, now).fetching,
        finished(t, rows, now).ttl == t.ttl,
        finished(t, rows, now).base == t.base,
{
}

/// However a round ends, it is over, and its end is what the guard counts from.
pub proof fn law_rounds_end(t: TrackerView, rows: Seq<RowView>, now: int)
    ensures
        !finished(t, rows, now).fetching,
        finished(t, rows, now).last_attempt == Some(now),
        finished(t, rows, now).ttl == t.ttl,
        finished(t, rows, now).base == t.base,
{
}

/// The row of a key whose payload came shows that payload: both windows with
/// their percents, the models of the session, and the cost.
pub proof fn law_rows_show_the_payload(index: int, suffix: Seq<char>, p: UsagePayload)
    ensures
        ({
            let row = row_of(index, suffix, Some(Ok(p)));
            &&& row.index == index
            &&& row.suffix == suffix
            &&& row.ok
            &&& row.status == Some(200u16)
            &&& row.error is None
            &&& row.session == p.session.usage
            &&& row.weekly == p.weekly.usage
            &&& row.session_pct is Some <==> p.session.usage is Some
            &&& row.weekly_pct is Some <==> p.weekly.usage is Some
            &&& p.session.usage matches Some(s) ==> row.session_pct == Some(s.pct_x10)
            &&& p.weekly.usage matches Some(s) ==> row.weekly_pct == Some(s.pct_x10)
            &&& row.models.len() == p.session.models@.len()
            &&& forall|i: int|
                0 <= i < row.models.len() ==> #[trigger] row.models[i] == (
                    p.session.models@[i].name@,
                    p.session.models@[i].request_count,
                )
            &&& row.cost == opt_chars(p.cost)
        }),
{
}

/// The row of a key whose fetch failed shows no figure, and says why: whether
/// the key was refused, the endpoint is gone, the rate is limited, which other
/// status came, or what was wrong on the way.
pub proof fn law_rows_show_the_failure(index: int, suffix: Seq<char>, e: FetchError)
    ensures
        ({
            let row = row_of(index, suffix, Some(Err(e)));
            &&& row.index == index
            &&& row.suffix == suffix
            &&& !row.ok
            &&& row.status is None
            &&& row.session is None
            &&& row.weekly is None
            &&& row.session_pct is None
            &&& row.weekly_pct is None
            &&& row.models.len() == 0
            &&& row.cost is None
            &&& row.error is Some
            &&& match e {
                FetchError::Status(code) => {
                    &&& code == 401 || code == 403 ==> row.error->0 == "unauthorized"@
                    &&& code == 404 ==> row.error->0 == "endpoint gone (upstream 404)"@
                    &&& code == 429 ==> row.error->0 == "rate limited (upstream 429)"@
                    &&& code != 401 && code != 403 && code != 404 && code != 429 ==> row.error->0
                        == "upstream HTTP "@ + text::decimal(code as nat)
                },
                FetchError::Network(msg) => row.error->0 == "network: "@ + msg@,
            }
        }),
        !row_of(index, suffix, None).ok,
        row_of(index, suffix, None).error == Some("network: "@ + "no result"@),
        row_of(index, suffix, None).session is None,
{
}

/// There is one row for each key, in order, under the end of its secret.
pub proof fn law_one_row_for_each_key(keys: Seq<Seq<char>>, fetched: Seq<Fetched>, i: int)
    requires
        0 <= i < keys.len(),
    ensures
        rows_of(keys, fetched).len() == keys.len(),
        rows_of(keys, fetched)[i].index == i,
        rows_of(keys, fetched)[i].suffix == config::suffix_of(keys[i]),
        rows_of(keys, fetched)[i].ok <==> (fetched[i] matches Some(Ok(_))),
        rows_of(keys, fetched)[i] == row_of(i, config::suffix_of(keys[i]), fetched[i]),
{
}

/// Keys that a snapshot lacks are shown as failed, each under its own index.
pub proof fn law_missing_keys_are_shown(have: int, expected: int, i: int)
    requires
        0 <= have <= i < expected,
    ensures
        missing(have, expected).len() == expected - have,
        missing(have, expected)[i - have].index == i,
        !missing(have, expected)[i - have].ok,
        missing(have, expected)[i - have].error == Some("no usage data"@),
        missing(have, expected)[i - have].session is None,
        missing(expected, have).len() == 0,
{
}

/// A fetch has data exactly if it was answered with 200 and with a payload that
/// has a figure for one window at least.
pub proof fn law_what_counts_as_data(status: u16, decoded: Option<UsagePayload>)
    ensures
        has_data(status, decoded) <==> status == 200 && decoded is Some && (
        decoded->0.session.usage is Some || decoded->0.weekly.usage is Some),
{
}

/// Age is counted from the end of a round, and never negative.
pub proof fn law_age(t: int, now: int)
    ensures
        elapsed(t, now) >= 0,
        now >= t ==> t + elapsed(t, now) == now,
        now <= t ==> elapsed(t, now) == 0,
{
}

/// A round that comes to nothing is over all the same: what was shown is still
/// shown, another round may begin, and a forced one has to wait its time.
pub proof fn law_abandoned_rounds(t: TrackerView, at: int, now: int)
    requires
        at <= now,
    ensures
        abandoned(t, at).snapshot == t.snapshot,
        abandoned(t, at).ttl == t.ttl,
        !abandoned(t, at).fetching,
        t.snapshot is Some ==> (refresh_step(abandoned(t, at), now) == Step::Serve <==> now < at
            + 5_000_000_000),
        t.snapshot is None ==> refresh_step(abandoned(t, at), now) == Step::Fetch && get_step(
            abandoned(t, at),
            now,
        ) == Step::Fetch,
{
}

} // verus!
