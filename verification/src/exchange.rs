//! One proxied request, from admission to its last response byte.
//!
//! An exchange says what to do next: send the request upstream, wait for a
//! slot, relay what the upstream answered, or answer the client itself. Its
//! holder does that and reports what came of it. Failover happens before
//! anything is sent to the client: once a response is relayed, the exchange is
//! over.

use vstd::prelude::*;
use vstd::string::*;

use crate::affinity::{self, opt_chars, BodyView, RequestBody};
use crate::config;
use crate::headers::{Affinity, Served, ServedView};
use crate::laws;
use crate::model::{self, outcome, HealthView, Outcome, PoolView, TicketView};
use crate::pool::{Admission, Permit, Pool, Reject, State, Ticket, COOLDOWN_429, NANOS_PER_SEC};
use crate::proxy::{
    error_json, error_reply, is_no_auth_path, no_auth_path, reject_reply, Reply, ReplyView,
};
use crate::text;

verus! {

/// Upstream attempts per request.
pub const MAX_ATTEMPTS: usize = 3;

/// How long one request may wait for a free slot.
pub const WAIT_TIMEOUT: u64 = 30_000_000_000;

/// The longest cooldown that an upstream can ask for, in seconds.
pub const RETRY_AFTER_CAP: u64 = 300;

/// Bytes of an error body that are looked at.
pub const SNIPPET: usize = 256;

// ---------------------------------------------------------------------------
// What an upstream answer means
// ---------------------------------------------------------------------------

/// What an upstream error status means for the key that got it.
#[derive(Debug, Clone, Copy, PartialEq, Eq, Structural)]
pub enum Verdict {
    /// It is no fault of the key: the client gets the answer as it is.
    Relay,
    /// The key was rejected.
    Dead,
    /// The key is to be left alone for `dur` nanoseconds.
    Cool { dur: u64 },
    /// The upstream failed.
    Strike,
}

/// How long a key is left alone after a 429, given what the upstream said: the
/// seconds that it named, up to a cap, else the default.
pub open spec fn cooldown(retry_after: Option<Seq<char>>) -> int {
    match retry_after {
        Some(v) => match text::unsigned_value(text::trimmed(v), u64::MAX as int) {
            Some(secs) => if secs < RETRY_AFTER_CAP {
                secs * NANOS_PER_SEC
            } else {
                RETRY_AFTER_CAP * NANOS_PER_SEC
            },
            None => COOLDOWN_429 as int,
        },
        None => COOLDOWN_429 as int,
    }
}

/// What `status` means, with what the upstream said about when to retry and
/// the beginning of the body. A 403 is about the key only if it says so.
pub open spec fn verdict(
    status: int,
    retry_after: Option<Seq<char>>,
    snip: Seq<char>,
) -> Verdict {
    if status == 401 || (status == 403 && text::occurs(snip, "Unauthorized"@)) {
        Verdict::Dead
    } else if status == 429 {
        Verdict::Cool { dur: cooldown(retry_after) as u64 }
    } else if 500 <= status <= 599 {
        Verdict::Strike
    } else {
        Verdict::Relay
    }
}

/// What is noted of the key. Nothing that the upstream wrote is: it may echo
/// the credential, and what is noted is shown to whoever asks.
pub open spec fn noted(verdict: Verdict, status: int) -> Seq<char> {
    match verdict {
        Verdict::Dead => "upstream says unauthorized"@,
        Verdict::Cool { dur } => "429"@,
        Verdict::Strike => "upstream "@ + text::decimal(status as nat),
        Verdict::Relay => ""@,
    }
}

/// What the client is told of the attempt, should it be the last.
pub open spec fn last_error(verdict: Verdict, status: int, snip: Seq<char>) -> Seq<char> {
    match verdict {
        Verdict::Dead => "unauthorized: "@ + snip,
        Verdict::Cool { dur } => "429: "@ + snip,
        Verdict::Strike => "upstream "@ + text::decimal(status as nat),
        Verdict::Relay => ""@,
    }
}

/// `p` after key `key` got `verdict` at `now`, for the reason `reason`.
pub open spec fn marked(
    p: PoolView,
    key: int,
    verdict: Verdict,
    reason: Seq<char>,
    now: int,
) -> PoolView {
    let h = p.states[key].health;
    match verdict {
        Verdict::Dead => model::with_health(p, key, model::died(h, reason)),
        Verdict::Cool { dur } => model::with_health(p, key, model::cooled(h, now + dur, reason)),
        Verdict::Strike => model::with_health(p, key, model::struck(h, now, reason)),
        Verdict::Relay => p,
    }
}

/// There is room to count at `now` what `verdict` says of a key with health
/// `h`, and the cooldown that it may bring ends in time.
pub open spec fn markable(h: HealthView, verdict: Verdict, now: int) -> bool {
    match verdict {
        Verdict::Dead => model::can_fail(h, 1),
        Verdict::Cool { dur } => model::can_fail(h, 1) && now + dur <= u64::MAX,
        Verdict::Strike => if model::third_strike(h) {
            model::can_fail(h, 2) && now + COOLDOWN_429 <= u64::MAX
        } else {
            model::can_fail(h, 1)
        },
        Verdict::Relay => true,
    }
}

/// How long a key is left alone after a 429.
fn cooldown_for(retry_after: Option<&str>) -> (r: u64)
    ensures
        r == cooldown(config::opt_view(retry_after)),
        r <= RETRY_AFTER_CAP * NANOS_PER_SEC,
{
    match retry_after {
        Some(v) => match text::parse_unsigned(text::trim(v), u64::MAX) {
            Some(secs) => if secs < RETRY_AFTER_CAP {
                secs * NANOS_PER_SEC
            } else {
                RETRY_AFTER_CAP * NANOS_PER_SEC
            },
            None => COOLDOWN_429,
        },
        None => COOLDOWN_429,
    }
}

/// What an upstream error status means for the key that got it.
pub fn classify(status: u16, retry_after: Option<&str>, snip: &str) -> (r: Verdict)
    ensures
        r == verdict(status as int, config::opt_view(retry_after), snip@),
        r matches Verdict::Cool { dur } ==> dur <= RETRY_AFTER_CAP * NANOS_PER_SEC,
{
    if status == 401 || (status == 403 && text::contains(snip, "Unauthorized")) {
        Verdict::Dead
    } else if status == 429 {
        Verdict::Cool { dur: cooldown_for(retry_after) }
    } else if 500 <= status && status <= 599 {
        Verdict::Strike
    } else {
        Verdict::Relay
    }
}

/// `a` followed by `b`.
fn joined(a: &str, b: &str) -> (r: String)
    ensures
        r@ == a@ + b@,
{
    let mut s = a.to_owned();
    s.append(b);
    s
}

/// What is noted of the key.
fn note(verdict: Verdict, status: u16) -> (r: String)
    ensures
        r@ == noted(verdict, status as int),
{
    match verdict {
        Verdict::Dead => "upstream says unauthorized".to_owned(),
        Verdict::Cool { .. } => "429".to_owned(),
        Verdict::Strike => joined("upstream ", text::to_decimal(status as u64).as_str()),
        Verdict::Relay => "".to_owned(),
    }
}

/// What the client is told of the attempt, should it be the last.
fn error_of(verdict: Verdict, status: u16, snip: &str) -> (r: String)
    ensures
        r@ == last_error(verdict, status as int, snip@),
{
    match verdict {
        Verdict::Dead => joined("unauthorized: ", snip),
        Verdict::Cool { .. } => joined("429: ", snip),
        Verdict::Strike => joined("upstream ", text::to_decimal(status as u64).as_str()),
        Verdict::Relay => "".to_owned(),
    }
}

/// Marks `key` as `verdict` says.
fn apply(pool: &mut Pool, key: usize, verdict: Verdict, reason: &str, now: u64)
    requires
        old(pool).wf(),
        key < old(pool)@.states.len(),
        markable(old(pool)@.states[key as int].health, verdict, now as int),
    ensures
        final(pool).wf(),
        final(pool)@ == marked(old(pool)@, key as int, verdict, reason@, now as int),
{
    match verdict {
        Verdict::Dead => pool.mark_dead(key, reason),
        Verdict::Cool { dur } => pool.mark_cooldown(key, dur, reason, now),
        Verdict::Strike => pool.mark_strike(key, reason, now),
        Verdict::Relay => {},
    }
}

/// How an attempt failed.
#[derive(Debug)]
pub enum Failure {
    /// No answer came.
    Network(String),
    /// The upstream answered with an error status.
    Status {
        status: u16,
        /// Its `Retry-After` header.
        retry_after: Option<String>,
        /// The beginning of its body.
        snip: String,
    },
}

#[verifier::ext_equal]
pub enum FailureView {
    Network(Seq<char>),
    Status { status: int, retry_after: Option<Seq<char>>, snip: Seq<char> },
}

impl View for Failure {
    type V = FailureView;

    open spec fn view(&self) -> FailureView {
        match self {
            Failure::Network(e) => FailureView::Network(e@),
            Failure::Status { status, retry_after, snip } => FailureView::Status {
                status: *status as int,
                retry_after: opt_chars(*retry_after),
                snip: snip@,
            },
        }
    }
}

impl Failure {
    /// An upstream answer with an error status, given the beginning of its
    /// body. No more of that is looked at than `SNIPPET` bytes.
    pub fn answered(status: u16, retry_after: Option<String>, body: &[u8]) -> (r: Failure)
        ensures
            r@ == (FailureView::Status {
                status: status as int,
                retry_after: opt_chars(retry_after),
                snip: text::lossy_text(affinity::capped(body@, SNIPPET as nat)),
            }),
    {
        Failure::Status { status, retry_after, snip: text::lossy(affinity::cap(body, SNIPPET)) }
    }
}

// ---------------------------------------------------------------------------
// Exchanges
// ---------------------------------------------------------------------------

/// One proxied request.
pub struct Exchange {
    no_auth: bool,
    is_v1: bool,
    id: Option<u64>,
    retries: usize,
    /// The keys that the request has been on.
    tried: Vec<usize>,
    permit: Option<Permit>,
    ticket: Option<Ticket>,
    affinity: Affinity,
}

#[verifier::ext_equal]
pub struct ExchangeView {
    /// The upstream asks for no credential.
    pub no_auth: bool,
    pub is_v1: bool,
    /// The conversation that the request belongs to.
    pub id: Option<u64>,
    pub retries: int,
    /// The keys that the request has been on.
    pub tried: Seq<usize>,
    /// The key that it has a slot of.
    pub key: Option<int>,
    /// Its place in a queue.
    pub ticket: Option<TicketView>,
    pub affinity: Affinity,
}

impl View for Exchange {
    type V = ExchangeView;

    closed spec fn view(&self) -> ExchangeView {
        ExchangeView {
            no_auth: self.no_auth,
            is_v1: self.is_v1,
            id: self.id,
            retries: self.retries as int,
            tried: self.tried@,
            key: match self.permit {
                Some(permit) => Some(permit@),
                None => None,
            },
            ticket: match self.ticket {
                Some(ticket) => Some(ticket@),
                None => None,
            },
            affinity: self.affinity,
        }
    }
}

/// What to do next.
#[derive(Debug)]
pub enum Action {
    /// Send the request upstream.
    Send,
    /// Sleep a while, and ask again with `Exchange::wake`.
    Wait,
    /// Give the client what the upstream answered.
    Relay,
    /// Answer the client.
    Reply(Reply),
}

#[verifier::ext_equal]
pub enum ActionView {
    Send,
    Wait,
    Relay,
    Reply(ReplyView),
}

impl View for Action {
    type V = ActionView;

    open spec fn view(&self) -> ActionView {
        match self {
            Action::Send => ActionView::Send,
            Action::Wait => ActionView::Wait,
            Action::Relay => ActionView::Relay,
            Action::Reply(reply) => ActionView::Reply(reply@),
        }
    }
}

/// `x` is an exchange over the keys of `p`.
pub open spec fn fits(x: ExchangeView, p: PoolView) -> bool {
    &&& x.key matches Some(key) ==> 0 <= key < p.states.len()
    &&& x.ticket matches Some(ticket) ==> 0 <= ticket.key < p.states.len()
    &&& 0 <= x.retries < MAX_ATTEMPTS
    &&& x.tried.len() == x.retries
    &&& x.key is Some ==> x.ticket is None
    &&& x.no_auth ==> x.key is None && x.ticket is None
}

/// An exchange that has not begun.
pub open spec fn fresh(sub_path: Seq<char>, is_v1: bool, body: Option<BodyView>) -> ExchangeView {
    ExchangeView {
        no_auth: no_auth_path(sub_path),
        is_v1,
        id: affinity::identity(body, sub_path),
        retries: 0,
        tried: seq![],
        key: None,
        ticket: None,
        affinity: Affinity::Off,
    }
}

/// How `x` fares with its pin if it is admitted to `p` at `now`.
pub open spec fn affinity_at(p: PoolView, x: ExchangeView, now: int) -> Affinity {
    if !p.affinity || x.id is None {
        Affinity::Off
    } else if model::pin_serves_anew(p, x.tried, x.id->0, now) {
        Affinity::Hit
    } else {
        Affinity::Miss
    }
}

/// A state of the pool and of an exchange, and what to do next.
pub type Turn = (PoolView, ExchangeView, ActionView);

/// `x` after an admission that ended in `o`, and what to do next.
pub open spec fn seated(x: ExchangeView, o: Outcome) -> (ExchangeView, ActionView) {
    match o {
        Outcome::Granted { key } => (
            ExchangeView { key: Some(key), ticket: None, ..x },
            ActionView::Send,
        ),
        Outcome::Queued { ticket } => (
            ExchangeView { key: None, ticket: Some(ticket), ..x },
            ActionView::Wait,
        ),
        Outcome::Rejected { status, reason, retry_after } => (
            ExchangeView { key: None, ticket: None, ..x },
            ActionView::Reply(error_reply(x.is_v1, reason, status, retry_after)),
        ),
    }
}

/// `x` after an admission that ended in `o` and left the pool at `p`.
pub open spec fn placed(p: PoolView, x: ExchangeView, o: Outcome) -> Turn {
    (p, seated(x, o).0, seated(x, o).1)
}

/// `x` asks to be admitted to `p` at `now`.
pub open spec fn entered(p: PoolView, x: ExchangeView, now: int) -> Turn {
    let (q, o) = model::admitted_affine(p, x.tried, WAIT_TIMEOUT as int, x.id, now);
    placed(q, ExchangeView { affinity: affinity_at(p, x, now), ..x }, o)
}

/// `x` begins at `now`. Without need of a credential it takes no slot.
pub open spec fn begun(p: PoolView, x: ExchangeView, now: int) -> Turn {
    if x.no_auth {
        (p, x, ActionView::Send)
    } else {
        entered(p, x, now)
    }
}

/// `x`, which has been waiting, asks again at `now`.
pub open spec fn woken(p: PoolView, x: ExchangeView, now: int) -> Turn {
    let (q, o) = model::resumed(p, x.ticket->0, now);
    placed(q, x, o)
}

/// What a client is told when no attempt succeeded.
pub open spec fn exhausted(attempts: int, upstream: Seq<char>, error: Seq<char>) -> Seq<char> {
    "ollamux exhausted all "@ + text::decimal(attempts as nat) + " failover attempt(s) against "@
        + upstream + "; last error: "@ + error
        + ". Per-key state: GET /_keys. The keys each cool down and recover automatically, so retrying later may succeed."@
}

/// What a client is told when the upstream did not answer a request that no
/// other key would help.
pub open spec fn unreachable_text(upstream: Seq<char>, error: Seq<char>) -> Seq<char> {
    "ollamux could not reach the upstream ("@ + upstream + "): "@ + error
        + ". Check network access and per-key state via GET /_keys; no automatic retry applies to this endpoint — repeat the request."@
}

/// `p` after the attempt of `x` on `key` failed: the identity is unpinned from
/// the key.
pub open spec fn forgotten(p: PoolView, x: ExchangeView, key: int) -> PoolView {
    match x.id {
        Some(id) => PoolView {
            pins: affinity::unpinned_from(p.pins, id, key as usize),
            ..p
        },
        None => p,
    }
}

/// `x` after a failure on `key` that another key may not have, with the pool at
/// `p`: it gives up its slot and asks for one elsewhere, as often as it may.
pub open spec fn retried(
    p: PoolView,
    x: ExchangeView,
    key: int,
    upstream: Seq<char>,
    error: Seq<char>,
    now: int,
) -> Turn {
    let q = forgotten(p, x, key);
    if x.retries + 1 >= MAX_ATTEMPTS {
        (
            q,
            x,
            ActionView::Reply(
                error_reply(x.is_v1, exhausted(x.retries + 1, upstream, error), 502, None),
            ),
        )
    } else {
        entered(
            model::freed(q, key),
            ExchangeView {
                retries: x.retries + 1,
                tried: x.tried.push(key as usize),
                key: None,
                ..x
            },
            now,
        )
    }
}

/// `x` after its attempt failed with `f` at `now`.
pub open spec fn failed(
    p: PoolView,
    x: ExchangeView,
    upstream: Seq<char>,
    f: FailureView,
    now: int,
) -> Turn {
    match (x.key, f) {
        (Some(key), FailureView::Network(e)) => retried(
            p,
            x,
            key,
            upstream,
            "network: "@ + e,
            now,
        ),
        (Some(key), FailureView::Status { status, retry_after, snip }) => {
            let v = verdict(status, retry_after, snip);
            if v == Verdict::Relay {
                (p, x, ActionView::Relay)
            } else {
                retried(
                    marked(p, key, v, noted(v, status), now),
                    x,
                    key,
                    upstream,
                    last_error(v, status, snip),
                    now,
                )
            }
        },
        (None, FailureView::Network(e)) => (
            p,
            x,
            ActionView::Reply(
                error_reply(x.is_v1, unreachable_text(upstream, "network: "@ + e), 502, None),
            ),
        ),
        (None, FailureView::Status { .. }) => (p, x, ActionView::Relay),
    }
}

/// There is room to count at `now` what the failure `f` of `x` says of its key,
/// if it has one and the failure says anything.
pub open spec fn can_fail(p: PoolView, x: ExchangeView, f: FailureView, now: int) -> bool {
    match (x.key, f) {
        (Some(key), FailureView::Status { status, retry_after, snip }) => markable(
            p.states[key].health,
            verdict(status, retry_after, snip),
            now,
        ),
        _ => true,
    }
}

/// There is room to count what a response with `status` says of the key of `x`,
/// if it has one and the response is a success.
pub open spec fn can_deliver(p: PoolView, x: ExchangeView, status: int) -> bool {
    x.key is Some && status < 400 ==> model::can_succeed(p.states[x.key->0].health)
}

/// `p` after a response with `status` went to the client of `x`: a success
/// settles the key, one of class 2xx pins the conversation to it, and the slot
/// is free again.
pub open spec fn delivered(p: PoolView, x: ExchangeView, status: int) -> PoolView {
    match x.key {
        Some(key) => {
            let settled = if status < 400 {
                PoolView {
                    rr: key,
                    ..model::with_health(p, key, model::succeeded(p.states[key].health))
                }
            } else {
                p
            };
            let pinned = match x.id {
                Some(id) => if 200 <= status < 300 {
                    model::with_pin(settled, id, key as usize)
                } else {
                    settled
                },
                None => settled,
            };
            model::freed(pinned, key)
        },
        None => closed(p, x),
    }
}

/// `p` after `x` ended without a response of the upstream: its slot is free
/// again, or its place in a queue.
pub open spec fn closed(p: PoolView, x: ExchangeView) -> PoolView {
    match (x.key, x.ticket) {
        (Some(key), _) => model::freed(p, key),
        (None, Some(ticket)) => model::parted(p, ticket.key),
        (None, None) => p,
    }
}

impl Exchange {
    /// An exchange for a request to `sub_path` (without leading slashes), on
    /// the OpenAI-compatible surface if `is_v1`, whose body is `body` if that
    /// could be understood.
    pub fn new(sub_path: &str, is_v1: bool, body: Option<&RequestBody>) -> (r: Exchange)
        ensures
            r@ == fresh(sub_path@, is_v1, affinity::opt_body(body)),
    {
        let r = Exchange {
            no_auth: is_no_auth_path(sub_path),
            is_v1,
            id: affinity::identity_from(body, sub_path),
            retries: 0,
            tried: Vec::new(),
            permit: None,
            ticket: None,
            affinity: Affinity::Off,
        };
        assert(r@ =~= fresh(sub_path@, is_v1, affinity::opt_body(body)));
        r
    }

    /// Begins the exchange.
    pub fn begin(&mut self, pool: &mut Pool, now: u64) -> (r: Action)
        requires
            old(pool).wf(),
            fits(old(self)@, old(pool)@),
            old(self)@.key is None,
            old(self)@.ticket is None,
        ensures
            final(pool).wf(),
            (final(pool)@, final(self)@, r@) == begun(old(pool)@, old(self)@, now as int),
            fits(final(self)@, final(pool)@),
    {
        if self.no_auth {
            return Action::Send;
        }
        self.enter(pool, now)
    }

    /// Asks the pool for a slot.
    fn enter(&mut self, pool: &mut Pool, now: u64) -> (r: Action)
        requires
            old(pool).wf(),
            fits(old(self)@, old(pool)@),
            !old(self)@.no_auth,
            old(self)@.key is None,
            old(self)@.ticket is None,
        ensures
            final(pool).wf(),
            (final(pool)@, final(self)@, r@) == entered(old(pool)@, old(self)@, now as int),
            fits(final(self)@, final(pool)@),
    {
        proof {
            pool.lemma_wf();
        }
        let on = pool.affinity_enabled();
        let ghost p = pool@;
        let (admission, hit) = pool.admit_affine_avoiding(
            &self.tried,
            WAIT_TIMEOUT,
            self.id,
            now,
        );
        self.affinity = if !on || self.id.is_none() {
            Affinity::Off
        } else if hit {
            Affinity::Hit
        } else {
            Affinity::Miss
        };
        proof {
            assert(self@ =~= ExchangeView {
                affinity: affinity_at(p, old(self)@, now as int),
                ..old(self)@
            });
            laws::law_admission_in_range(p, self.tried@, WAIT_TIMEOUT as int, self.id, now as int);
        }
        self.place(admission)
    }

    /// Takes note of how an admission ended.
    fn place(&mut self, admission: Result<Admission, Reject>) -> (r: Action)
        ensures
            (final(self)@, r@) == seated(old(self)@, outcome(admission)),
    {
        match admission {
            Ok(Admission::Granted(permit)) => {
                self.permit = Some(permit);
                self.ticket = None;
                Action::Send
            },
            Ok(Admission::Queued(ticket)) => {
                self.permit = None;
                self.ticket = Some(ticket);
                Action::Wait
            },
            Err(reject) => {
                self.permit = None;
                self.ticket = None;
                Action::Reply(reject_reply(&reject, self.is_v1))
            },
        }
    }

    /// Asks again for a slot, after a wait.
    pub fn wake(&mut self, pool: &mut Pool, now: u64) -> (r: Action)
        requires
            old(pool).wf(),
            fits(old(self)@, old(pool)@),
            old(self)@.ticket is Some,
        ensures
            final(pool).wf(),
            (final(pool)@, final(self)@, r@) == woken(old(pool)@, old(self)@, now as int),
            fits(final(self)@, final(pool)@),
    {
        match self.ticket.take() {
            Some(ticket) => {
                let admission = pool.resume(ticket, now);
                self.place(admission)
            },
            None => Action::Wait,
        }
    }

    /// How long to sleep at `now` before asking again.
    pub fn pause(&self, now: u64) -> (r: u64)
        ensures
            r == match self@.ticket {
                Some(ticket) => model::pause_of(ticket, now as int),
                None => 0,
            },
    {
        match &self.ticket {
            Some(ticket) => ticket.pause(now),
            None => 0,
        }
    }

    /// Whether `fail` may be called.
    pub fn can_fail(&self, pool: &Pool, failure: &Failure, now: u64) -> (r: bool)
        requires
            pool.wf(),
            fits(self@, pool@),
        ensures
            r == can_fail(pool@, self@, failure@, now as int),
    {
        let key: usize = match &self.permit {
            Some(permit) => permit.key(),
            None => {
                return true;
            },
        };
        match failure {
            Failure::Network(_) => true,
            Failure::Status { status, retry_after, snip } => {
                let after = match retry_after {
                    Some(v) => Some(v.as_str()),
                    None => None,
                };
                match classify(*status, after, snip.as_str()) {
                    Verdict::Dead => pool.can_count_failures(key, 1),
                    Verdict::Cool { dur } => pool.can_count_failures(key, 1) && now <= u64::MAX
                        - dur,
                    Verdict::Strike => if pool.strikes_out_next(key) {
                        pool.can_count_failures(key, 2) && now <= u64::MAX - COOLDOWN_429
                    } else {
                        pool.can_count_failures(key, 1)
                    },
                    Verdict::Relay => true,
                }
            },
        }
    }

    /// Whether `deliver` may be called.
    pub fn can_deliver(&self, pool: &Pool, status: u16) -> (r: bool)
        requires
            pool.wf(),
            fits(self@, pool@),
        ensures
            r == can_deliver(pool@, self@, status as int),
    {
        match &self.permit {
            Some(permit) => status >= 400 || pool.can_count_success(permit.key()),
            None => true,
        }
    }

    /// Reports that the attempt failed. `upstream` is the upstream's address,
    /// for the client.
    pub fn fail(&mut self, pool: &mut Pool, upstream: &str, failure: Failure, now: u64) -> (r:
        Action)
        requires
            old(pool).wf(),
            fits(old(self)@, old(pool)@),
            can_fail(old(pool)@, old(self)@, failure@, now as int),
        ensures
            final(pool).wf(),
            (final(pool)@, final(self)@, r@) == failed(
                old(pool)@,
                old(self)@,
                upstream@,
                failure@,
                now as int,
            ),
            fits(final(self)@, final(pool)@),
    {
        let key: usize = match &self.permit {
            Some(permit) => permit.key(),
            None => {
                return match failure {
                    Failure::Network(e) => {
                        let error = joined("network: ", e.as_str());
                        let msg = unreachable_message(upstream, error.as_str());
                        Action::Reply(
                            Reply {
                                status: 502,
                                body: error_json(self.is_v1, msg.as_str(), 502),
                                retry_after_s: None,
                            },
                        )
                    },
                    Failure::Status { .. } => Action::Relay,
                };
            },
        };
        match failure {
            Failure::Network(e) => {
                let error = joined("network: ", e.as_str());
                self.retry(pool, key, upstream, error.as_str(), now)
            },
            Failure::Status { status, retry_after, snip } => {
                let after = match &retry_after {
                    Some(v) => Some(v.as_str()),
                    None => None,
                };
                let v = classify(status, after, snip.as_str());
                if v == Verdict::Relay {
                    return Action::Relay;
                }
                apply(pool, key, v, note(v, status).as_str(), now);
                let error = error_of(v, status, snip.as_str());
                self.retry(pool, key, upstream, error.as_str(), now)
            },
        }
    }

    /// Moves on from `key`, as often as that may be.
    fn retry(&mut self, pool: &mut Pool, key: usize, upstream: &str, error: &str, now: u64) -> (r:
        Action)
        requires
            old(pool).wf(),
            fits(old(self)@, old(pool)@),
            old(self)@.key == Some(key as int),
        ensures
            final(pool).wf(),
            (final(pool)@, final(self)@, r@) == retried(
                old(pool)@,
                old(self)@,
                key as int,
                upstream@,
                error@,
                now as int,
            ),
            fits(final(self)@, final(pool)@),
    {
        if let Some(id) = self.id {
            pool.unpin(id, key);
        }
        assert(pool@ == forgotten(old(pool)@, old(self)@, key as int));
        if self.retries + 1 >= MAX_ATTEMPTS {
            let msg = exhausted_message(self.retries + 1, upstream, error);
            return Action::Reply(
                Reply {
                    status: 502,
                    body: error_json(self.is_v1, msg.as_str(), 502),
                    retry_after_s: None,
                },
            );
        }
        if let Some(permit) = self.permit.take() {
            pool.release(permit);
        }
        self.retries = self.retries + 1;
        self.tried.push(key);
        assert(self@ =~= ExchangeView {
            retries: old(self)@.retries + 1,
            tried: old(self)@.tried.push(key),
            key: None,
            ..old(self)@
        });
        self.enter(pool, now)
    }

    /// Reports that a response with `status` has gone to the client, and ends
    /// the exchange.
    pub fn deliver(self, pool: &mut Pool, status: u16)
        requires
            old(pool).wf(),
            fits(self@, old(pool)@),
            can_deliver(old(pool)@, self@, status as int),
        ensures
            final(pool).wf(),
            final(pool)@ == delivered(old(pool)@, self@, status as int),
    {
        if let Some(permit) = &self.permit {
            let key: usize = permit.key();
            pool.settle(key, status < 400);
            if let Some(id) = self.id {
                if 200 <= status && status < 300 {
                    pool.pin(id, key);
                }
            }
        }
        self.close(pool)
    }

    /// Ends an exchange without a response of the upstream: its client was
    /// answered by the proxy, or has gone, perhaps while waiting.
    pub fn close(self, pool: &mut Pool)
        requires
            old(pool).wf(),
            fits(self@, old(pool)@),
        ensures
            final(pool).wf(),
            final(pool)@ == closed(old(pool)@, self@),
    {
        match self.permit {
            Some(permit) => pool.release(permit),
            None => if let Some(ticket) = self.ticket {
                pool.leave(ticket);
            },
        }
    }

    /// The key whose slot the exchange has.
    pub fn key(&self) -> (r: Option<usize>)
        ensures
            match r {
                Some(key) => self@.key == Some(key as int),
                None => self@.key is None,
            },
    {
        match &self.permit {
            Some(permit) => Some(permit.key()),
            None => None,
        }
    }

    /// Which key serves the request, and how.
    pub fn served(&self, pool: &Pool) -> (r: Served)
        requires
            pool.wf(),
            fits(self@, pool@),
        ensures
            r@ == served_by(pool@, self@),
    {
        Served {
            suffix: match &self.permit {
                Some(permit) => Some(pool.suffix_of(permit.key())),
                None => None,
            },
            retries: self.retries,
            affinity: self.affinity,
        }
    }
}

/// Which key of `p` serves `x`, and how.
pub open spec fn served_by(p: PoolView, x: ExchangeView) -> ServedView {
    ServedView {
        suffix: match x.key {
            Some(key) => Some(config::suffix_of(p.keys[key])),
            None => None,
        },
        retries: x.retries,
        affinity: x.affinity,
    }
}

/// What a client is told when no attempt succeeded.
fn exhausted_message(attempts: usize, upstream: &str, error: &str) -> (r: String)
    ensures
        r@ == exhausted(attempts as int, upstream@, error@),
{
    let mut s = joined("ollamux exhausted all ", text::to_decimal(attempts as u64).as_str());
    s.append(" failover attempt(s) against ");
    s.append(upstream);
    s.append("; last error: ");
    s.append(error);
    s.append(
        ". Per-key state: GET /_keys. The keys each cool down and recover automatically, so retrying later may succeed.",
    );
    s
}

/// What a client is told when the upstream did not answer.
fn unreachable_message(upstream: &str, error: &str) -> (r: String)
    ensures
        r@ == unreachable_text(upstream@, error@),
{
    let mut s = joined("ollamux could not reach the upstream (", upstream);
    s.append("): ");
    s.append(error);
    s.append(
        ". Check network access and per-key state via GET /_keys; no automatic retry applies to this endpoint — repeat the request.",
    );
    s
}

/// How the sending of a response ended.
#[derive(Debug, Clone, Copy, PartialEq, Eq, Structural)]
pub enum Delivery {
    /// All of it was sent.
    Complete,
    /// The head of a stream could not be sent.
    HeadLost,
    /// The client went away in the middle of a stream.
    ClientGone,
    /// The upstream broke off, or what was not a stream could not be sent.
    Broken,
}

/// The status that an exchange is settled with, for a response with `status`.
pub open spec fn settled(delivery: Delivery, status: int) -> int {
    match delivery {
        Delivery::Complete => status,
        Delivery::HeadLost => 500,
        Delivery::ClientGone => 200,
        Delivery::Broken => 502,
    }
}

/// The status that an exchange is settled with, for a response with `status`.
pub fn settled_status(delivery: Delivery, status: u16) -> (r: u16)
    ensures
        r == settled(delivery, status as int),
        r == match delivery {
            Delivery::Complete => status,
            Delivery::HeadLost => 500,
            Delivery::ClientGone => 200,
            Delivery::Broken => 502,
        },
{
    match delivery {
        Delivery::Complete => status,
        Delivery::HeadLost => 500,
        Delivery::ClientGone => 200,
        Delivery::Broken => 502,
    }
}

// ---------------------------------------------------------------------------
// Laws
// ---------------------------------------------------------------------------

/// A failure leads to another attempt only where fewer than `MAX_ATTEMPTS` have
/// been made, and an attempt is counted: no request is sent more often.
pub proof fn law_attempts_are_bounded(
    p: PoolView,
    x: ExchangeView,
    upstream: Seq<char>,
    f: FailureView,
    now: int,
)
    requires
        fits(x, p),
        model::pool_ok(p),
        failed(p, x, upstream, f, now).2 is Send || failed(p, x, upstream, f, now).2 is Wait,
    ensures
        failed(p, x, upstream, f, now).1.retries == x.retries + 1,
        x.retries + 1 < MAX_ATTEMPTS,
        failed(p, x, upstream, f, now).1.tried == x.tried.push(x.key->0 as usize),
{
}

/// A request without need of a credential leaves the pool alone, whatever
/// becomes of it.
pub proof fn law_no_auth_touches_nothing(
    p: PoolView,
    x: ExchangeView,
    upstream: Seq<char>,
    f: FailureView,
    status: int,
    now: int,
)
    requires
        fits(x, p),
        x.no_auth,
    ensures
        begun(p, x, now) == (p, x, ActionView::Send),
        failed(p, x, upstream, f, now).0 == p,
        failed(p, x, upstream, f, now).1 == x,
        !(failed(p, x, upstream, f, now).2 is Send),
        delivered(p, x, status) == p,
        closed(p, x) == p,
{
}

/// A client error of the upstream is relayed, and is no sign of anything about
/// the key.
pub proof fn law_client_errors_are_relayed(
    p: PoolView,
    x: ExchangeView,
    upstream: Seq<char>,
    status: int,
    retry_after: Option<Seq<char>>,
    snip: Seq<char>,
    now: int,
)
    requires
        400 <= status < 500,
        status != 401,
        status != 429,
        status == 403 ==> !text::occurs(snip, "Unauthorized"@),
    ensures
        failed(p, x, upstream, (FailureView::Status { status, retry_after, snip }), now) == (
            p,
            x,
            ActionView::Relay,
        ),
{
}

proof fn lemma_forgotten_ok(p: PoolView, x: ExchangeView, key: int)
    requires
        0 <= key < p.states.len(),
        model::pool_ok(p),
    ensures
        model::pool_ok(forgotten(p, x, key)),
        model::pool_ok(model::freed(forgotten(p, x, key), key)),
{
    if let Some(id) = x.id {
        affinity::lemma_position_range(p.pins, id);
        affinity::law_unpin_needs_current_key(p.pins, id, key as usize, id);
        laws::lemma_unpin_keeps_keys(p.pins, id, p.states.len() as int);
    }
    let q = forgotten(p, x, key);
    let f = model::freed(q, key);
    assert forall|i: int| 0 <= i < f.states.len() implies model::key_ok(#[trigger] f.states[i]) by {
        assert(model::key_ok(q.states[i]));
    }
}

proof fn lemma_marked_ok(p: PoolView, key: int, v: Verdict, reason: Seq<char>, now: int)
    requires
        0 <= key < p.states.len(),
        model::pool_ok(p),
        0 <= now,
        markable(p.states[key].health, v, now),
    ensures
        model::pool_ok(marked(p, key, v, reason, now)),
{
    let q = marked(p, key, v, reason, now);
    assert forall|i: int| 0 <= i < q.states.len() implies model::key_ok(#[trigger] q.states[i]) by {
        assert(model::key_ok(p.states[i]));
    }
}

/// What a failure that another key may not have does to the health of the keys
/// is what it marks: moving on changes nothing more, as seen at `now`.
pub proof fn law_moving_on_keeps_health(
    p: PoolView,
    x: ExchangeView,
    key: int,
    upstream: Seq<char>,
    error: Seq<char>,
    now: int,
    other: int,
)
    requires
        fits(x, p),
        model::pool_ok(p),
        x.key == Some(key),
        0 <= other < p.states.len(),
    ensures
        model::refreshed(
            retried(p, x, key, upstream, error, now).0.states[other].health,
            now,
        ) == model::refreshed(p.states[other].health, now),
{
    lemma_forgotten_ok(p, x, key);
    let q = forgotten(p, x, key);
    if x.retries + 1 < MAX_ATTEMPTS {
        laws::law_admission_keeps_health(
            model::freed(q, key),
            x.tried.push(key as usize),
            WAIT_TIMEOUT as int,
            x.id,
            now,
            other,
        );
    }
}

/// An attempt that got no answer marks no key.
pub proof fn law_no_answer_marks_nothing(
    p: PoolView,
    x: ExchangeView,
    upstream: Seq<char>,
    error: Seq<char>,
    now: int,
    other: int,
)
    requires
        fits(x, p),
        model::pool_ok(p),
        0 <= other < p.states.len(),
    ensures
        model::refreshed(
            failed(p, x, upstream, FailureView::Network(error), now).0.states[other].health,
            now,
        ) == model::refreshed(p.states[other].health, now),
{
    if let Some(key) = x.key {
        law_moving_on_keeps_health(p, x, key, upstream, "network: "@ + error, now, other);
    }
}

/// A rejected key is dead afterwards.
pub proof fn law_unauthorized_kills(
    p: PoolView,
    x: ExchangeView,
    upstream: Seq<char>,
    status: int,
    retry_after: Option<Seq<char>>,
    snip: Seq<char>,
    now: int,
)
    requires
        fits(x, p),
        model::pool_ok(p),
        0 <= now,
        x.key is Some,
        can_fail(p, x, (FailureView::Status { status, retry_after, snip }), now),
        status == 401 || (status == 403 && text::occurs(snip, "Unauthorized"@)),
    ensures
        model::state_at(
            failed(
                p,
                x,
                upstream,
                (FailureView::Status { status, retry_after, snip }),
                now,
            ).0.states[x.key->0],
            now,
        ) == State::Dead,
{
    let key = x.key->0;
    let v = Verdict::Dead;
    lemma_marked_ok(p, key, v, noted(v, status), now);
    law_moving_on_keeps_health(
        marked(p, key, v, noted(v, status), now),
        x,
        key,
        upstream,
        last_error(v, status, snip),
        now,
        key,
    );
}

/// A rate-limited key that is not dead is in cooldown afterwards, for as long
/// as that is to be.
pub proof fn law_rate_limit_cools(
    p: PoolView,
    x: ExchangeView,
    upstream: Seq<char>,
    retry_after: Option<Seq<char>>,
    snip: Seq<char>,
    now: int,
)
    requires
        fits(x, p),
        model::pool_ok(p),
        0 <= now,
        x.key is Some,
        can_fail(p, x, (FailureView::Status { status: 429, retry_after, snip }), now),
        p.states[x.key->0].health.state != State::Dead,
        cooldown(retry_after) > 0,
    ensures
        ({
            let h = model::refreshed(
                failed(
                    p,
                    x,
                    upstream,
                    (FailureView::Status { status: 429, retry_after, snip }),
                    now,
                ).0.states[x.key->0].health,
                now,
            );
            h.state == State::Cooldown && h.until == Some(now + cooldown(retry_after))
        }),
{
    let key = x.key->0;
    let v = verdict(429, retry_after, snip);
    law_cooldown_is_capped(retry_after);
    lemma_marked_ok(p, key, v, noted(v, 429), now);
    law_moving_on_keeps_health(
        marked(p, key, v, noted(v, 429), now),
        x,
        key,
        upstream,
        last_error(v, 429, snip),
        now,
        key,
    );
}

/// An upstream failure is one strike against the key.
pub proof fn law_upstream_failure_strikes(
    p: PoolView,
    x: ExchangeView,
    upstream: Seq<char>,
    status: int,
    retry_after: Option<Seq<char>>,
    snip: Seq<char>,
    now: int,
)
    requires
        fits(x, p),
        model::pool_ok(p),
        0 <= now,
        x.key is Some,
        can_fail(p, x, (FailureView::Status { status, retry_after, snip }), now),
        500 <= status <= 599,
    ensures
        model::refreshed(
            failed(
                p,
                x,
                upstream,
                (FailureView::Status { status, retry_after, snip }),
                now,
            ).0.states[x.key->0].health,
            now,
        ) == model::refreshed(
            model::struck(
                p.states[x.key->0].health,
                now,
                "upstream "@ + text::decimal(status as nat),
            ),
            now,
        ),
{
    let key = x.key->0;
    let v = Verdict::Strike;
    lemma_marked_ok(p, key, v, noted(v, status), now);
    law_moving_on_keeps_health(
        marked(p, key, v, noted(v, status), now),
        x,
        key,
        upstream,
        last_error(v, status, snip),
        now,
        key,
    );
}

/// A request whose attempt failed in a way that another key may not goes to
/// another key at once, if one that it has not been on is up and free, and it
/// may try again.
pub proof fn law_failover_reaches_another_key(
    p: PoolView,
    x: ExchangeView,
    key: int,
    upstream: Seq<char>,
    error: Seq<char>,
    now: int,
    other: int,
)
    requires
        fits(x, p),
        model::pool_ok(p),
        x.key == Some(key),
        x.retries + 1 < MAX_ATTEMPTS,
        other != key,
        !model::is_tried(x.tried, other),
        model::eligible(model::all_seen(p, now), true, other),
    ensures
        retried(p, x, key, upstream, error, now).2 is Send,
        retried(p, x, key, upstream, error, now).1.key is Some,
        retried(p, x, key, upstream, error, now).1.key->0 != key,
        !model::is_tried(x.tried, retried(p, x, key, upstream, error, now).1.key->0),
{
    lemma_forgotten_ok(p, x, key);
    let f = model::freed(forgotten(p, x, key), key);
    let tried = x.tried.push(key as usize);
    let q = match x.id {
        Some(i) => model::looked_up(f, i),
        None => f,
    };
    laws::lemma_lookup_ok(f, x.id);
    laws::lemma_all_seen_ok(q, now);
    laws::law_admission(q, tried, WAIT_TIMEOUT as int, x.id, now);
    assert(q.states[other] == p.states[other]);
    assert(model::is_up(model::all_seen(q, now), other));
    assert(model::eligible(model::all_seen(q, now), true, other));
    assert(!model::is_tried(tried, other)) by {
        if tried.contains(other as usize) {
            let i = choose|i: int| 0 <= i < tried.len() && tried[i] == other as usize;
            if i < x.tried.len() {
                assert(x.tried[i] == other as usize);
            }
        }
    }
    assert(!model::all_dead(model::all_seen(q, now))) by {
        assert(model::all_seen(q, now).states[other].health.state == State::Up);
    }
    let a = model::admitted(q, tried, WAIT_TIMEOUT as int, x.id, now);
    assert(a.1 is Granted);
    laws::law_retry_moves_on(model::all_seen(q, now), tried, a.1->key, other);
    let next = retried(p, x, key, upstream, error, now).1.key->0;
    assert(!model::is_tried(tried, next));
    assert(tried[x.tried.len() as int] == key as usize);
    assert forall|k: usize| x.tried.contains(k) implies tried.contains(k) by {
        let i = choose|i: int| 0 <= i < x.tried.len() && x.tried[i] == k;
        assert(tried[i] == k);
    }
}

/// A rate-limited key cools for the time that the upstream named, five minutes
/// at most, or for a minute where it named none.
pub proof fn law_cooldown_is_capped(retry_after: Option<Seq<char>>)
    ensures
        0 <= cooldown(retry_after) <= RETRY_AFTER_CAP * NANOS_PER_SEC,
        retry_after is None ==> cooldown(retry_after) == COOLDOWN_429,
{
    if let Some(v) = retry_after {
        text::law_unsigned_value(text::trimmed(v), u64::MAX as int);
    }
}

/// A failure that another key may not have unpins the conversation from the
/// key.
pub proof fn law_failure_unpins(p: PoolView, x: ExchangeView, key: int)
    requires
        0 <= key <= usize::MAX,
        x.id is Some,
        affinity::distinct_ids(p.pins),
    ensures
        affinity::pinned(forgotten(p, x, key).pins, x.id->0) != Some(key as usize),
{
    affinity::law_unpin_needs_current_key(p.pins, x.id->0, key as usize, x.id->0);
}

/// A response of class 2xx pins the conversation to the key that served it.
pub proof fn law_success_pins(p: PoolView, x: ExchangeView, status: int)
    requires
        model::pool_ok(p),
        fits(x, p),
        p.affinity,
        x.id is Some,
        x.key is Some,
        200 <= status < 300,
    ensures
        model::pinned_key(delivered(p, x, status), x.id->0) == Some(x.key->0 as usize),
{
    affinity::law_pin_is_found(p.pins, p.pin_cap, x.id->0, x.key->0 as usize, x.id->0);
}

/// A request that is reported as a hit was served by the key that its
/// conversation was pinned to.
pub proof fn law_hit_means_pinned(p: PoolView, x: ExchangeView, now: int)
    requires
        entered(p, x, now).2 is Send,
        entered(p, x, now).1.affinity == Affinity::Hit,
    ensures
        x.id is Some,
        entered(p, x, now).1.key == Some(model::pinned_key(p, x.id->0)->0 as int),
{
}

/// What is taken of key `key` of `p` but by `x`: slots, and places in its queue.
pub open spec fn taken_by_others(p: PoolView, x: ExchangeView, key: int) -> (int, int) {
    (
        p.states[key].held - if x.key == Some(key) {
            1int
        } else {
            0
        },
        p.states[key].waiters - if x.ticket is Some && x.ticket->0.key == key {
            1int
        } else {
            0
        },
    )
}

/// `p` counts the slot, or the place in a queue, that `x` has.
pub open spec fn counted(p: PoolView, x: ExchangeView) -> bool {
    &&& x.key matches Some(key) ==> p.states[key].held >= 1
    &&& x.ticket matches Some(ticket) ==> p.states[ticket.key].waiters >= 1
}

/// A request that begins takes one slot, or one place in a queue, or nothing,
/// and what others have taken is not touched.
pub proof fn law_begin_takes_its_own(p: PoolView, x: ExchangeView, now: int, key: int)
    requires
        model::pool_ok(p),
        fits(x, p),
        x.key is None,
        x.ticket is None,
        0 <= key < p.states.len(),
    ensures
        taken_by_others(begun(p, x, now).0, begun(p, x, now).1, key) == taken_by_others(
            p,
            x,
            key,
        ),
        counted(begun(p, x, now).0, begun(p, x, now).1),
{
    if !x.no_auth {
        lemma_entering_takes_its_own(p, x, now, key);
    }
}

proof fn lemma_entering_takes_its_own(p: PoolView, x: ExchangeView, now: int, key: int)
    requires
        model::pool_ok(p),
        x.key is None,
        x.ticket is None,
        0 <= key < p.states.len(),
    ensures
        taken_by_others(entered(p, x, now).0, entered(p, x, now).1, key) == taken_by_others(
            p,
            x,
            key,
        ),
        counted(entered(p, x, now).0, entered(p, x, now).1),
{
    let o = model::admitted_affine(p, x.tried, WAIT_TIMEOUT as int, x.id, now).1;
    laws::law_admission_counts(p, x.tried, WAIT_TIMEOUT as int, x.id, now, key);
    laws::law_admission_in_range(p, x.tried, WAIT_TIMEOUT as int, x.id, now);
    match o {
        Outcome::Granted { key: k } => {
            assert(model::key_ok(p.states[k]));
            laws::law_admission_counts(p, x.tried, WAIT_TIMEOUT as int, x.id, now, k);
        },
        Outcome::Queued { ticket } => {
            assert(model::key_ok(p.states[ticket.key]));
            laws::law_admission_counts(p, x.tried, WAIT_TIMEOUT as int, x.id, now, ticket.key);
        },
        Outcome::Rejected { .. } => {},
    }
}

/// A request that has been waiting trades its place for a slot, waits on, or
/// gives its place back, and what others have taken is not touched.
pub proof fn law_wake_takes_its_own(p: PoolView, x: ExchangeView, now: int, key: int)
    requires
        model::pool_ok(p),
        fits(x, p),
        counted(p, x),
        x.ticket is Some,
        0 <= key < p.states.len(),
    ensures
        taken_by_others(woken(p, x, now).0, woken(p, x, now).1, key) == taken_by_others(
            p,
            x,
            key,
        ),
        counted(woken(p, x, now).0, woken(p, x, now).1),
{
    assert(model::key_ok(p.states[x.ticket->0.key]));
}

/// A request whose attempt failed still has one slot, or one place in a queue,
/// or nothing, and what others have taken is not touched.
pub proof fn law_failure_takes_its_own(
    p: PoolView,
    x: ExchangeView,
    upstream: Seq<char>,
    f: FailureView,
    now: int,
    key: int,
)
    requires
        model::pool_ok(p),
        fits(x, p),
        counted(p, x),
        0 <= now,
        can_fail(p, x, f, now),
        0 <= key < p.states.len(),
    ensures
        taken_by_others(
            failed(p, x, upstream, f, now).0,
            failed(p, x, upstream, f, now).1,
            key,
        ) == taken_by_others(p, x, key),
        counted(failed(p, x, upstream, f, now).0, failed(p, x, upstream, f, now).1),
{
    if let Some(at) = x.key {
        match f {
            FailureView::Network(e) => {
                lemma_retrying_takes_its_own(p, x, at, upstream, "network: "@ + e, now, key);
            },
            FailureView::Status { status, retry_after, snip } => {
                let v = verdict(status, retry_after, snip);
                law_cooldown_is_capped(retry_after);
                lemma_marked_ok(p, at, v, noted(v, status), now);
                lemma_retrying_takes_its_own(
                    marked(p, at, v, noted(v, status), now),
                    x,
                    at,
                    upstream,
                    last_error(v, status, snip),
                    now,
                    key,
                );
            },
        }
    }
}

proof fn lemma_retrying_takes_its_own(
    p: PoolView,
    x: ExchangeView,
    at: int,
    upstream: Seq<char>,
    error: Seq<char>,
    now: int,
    key: int,
)
    requires
        model::pool_ok(p),
        fits(x, p),
        counted(p, x),
        x.key == Some(at),
        0 <= key < p.states.len(),
    ensures
        taken_by_others(
            retried(p, x, at, upstream, error, now).0,
            retried(p, x, at, upstream, error, now).1,
            key,
        ) == taken_by_others(p, x, key),
        counted(
            retried(p, x, at, upstream, error, now).0,
            retried(p, x, at, upstream, error, now).1,
        ),
{
    if x.retries + 1 < MAX_ATTEMPTS {
        lemma_forgotten_ok(p, x, at);
        lemma_entering_takes_its_own(
            model::freed(forgotten(p, x, at), at),
            ExchangeView {
                retries: x.retries + 1,
                tried: x.tried.push(at as usize),
                key: None,
                ..x
            },
            now,
            key,
        );
    }
}

/// However a request ends, nothing that it took stays taken: neither a slot nor
/// a place in a queue.
pub proof fn law_slots_come_back(p: PoolView, x: ExchangeView, status: int, key: int)
    requires
        model::pool_ok(p),
        fits(x, p),
        counted(p, x),
        0 <= key < p.states.len(),
    ensures
        delivered(p, x, status).states[key].held == taken_by_others(p, x, key).0,
        delivered(p, x, status).states[key].waiters == taken_by_others(p, x, key).1,
        closed(p, x).states[key].held == taken_by_others(p, x, key).0,
        closed(p, x).states[key].waiters == taken_by_others(p, x, key).1,
{
}

/// A request that moves on gives up its slot before it takes another: where it
/// is sent on, one slot of its new key is in use besides those of others, and
/// where it waits or is refused, none of its own is.
pub proof fn law_moving_on_frees_its_slot(
    p: PoolView,
    x: ExchangeView,
    at: int,
    upstream: Seq<char>,
    error: Seq<char>,
    now: int,
    key: int,
)
    requires
        model::pool_ok(p),
        fits(x, p),
        counted(p, x),
        x.key == Some(at),
        x.retries + 1 < MAX_ATTEMPTS,
        0 <= key < p.states.len(),
    ensures
        ({
            let (q, y, action) = retried(p, x, at, upstream, error, now);
            &&& q.states[key].held == model::freed(p, at).states[key].held + if y.key == Some(key) {
                1int
            } else {
                0
            }
            &&& action is Send <==> y.key is Some
            &&& action is Wait <==> y.ticket is Some
        }),
{
    lemma_retrying_takes_its_own(p, x, at, upstream, error, now, key);
    assert(model::key_ok(p.states[at]));
}

/// What the upstream wrote leaves no trace in the pool or in the exchange:
/// failures that mean the same, under the same status, leave both the same.
pub proof fn law_upstream_words_leave_no_trace(
    p: PoolView,
    x: ExchangeView,
    upstream: Seq<char>,
    status: int,
    a: (Option<Seq<char>>, Seq<char>),
    b: (Option<Seq<char>>, Seq<char>),
    now: int,
)
    requires
        verdict(status, a.0, a.1) == verdict(status, b.0, b.1),
    ensures
        ({
            let f = failed(
                p,
                x,
                upstream,
                FailureView::Status { status, retry_after: a.0, snip: a.1 },
                now,
            );
            let g = failed(
                p,
                x,
                upstream,
                FailureView::Status { status, retry_after: b.0, snip: b.1 },
                now,
            );
            f.0 == g.0 && f.1 == g.1
        }),
{
}

/// Secrets decide nothing and show nowhere: on pools that differ in nothing but
/// secrets that end alike, a request fares alike, is reported alike to its
/// client, and leaves them so.
pub proof fn law_secrets_leave_no_trace(
    p: PoolView,
    q: PoolView,
    x: ExchangeView,
    upstream: Seq<char>,
    f: FailureView,
    status: int,
    now: int,
)
    requires
        model::pool_ok(p),
        model::alike(p, q),
        fits(x, p),
        0 <= now,
        can_fail(p, x, f, now),
    ensures
        same_turn(begun(p, x, now), begun(q, x, now)),
        x.ticket is Some ==> same_turn(woken(p, x, now), woken(q, x, now)),
        same_turn(failed(p, x, upstream, f, now), failed(q, x, upstream, f, now)),
        model::alike(delivered(p, x, status), delivered(q, x, status)),
        model::alike(closed(p, x), closed(q, x)),
        served_by(p, x) == served_by(q, x),
{
    laws::law_admission_ignores_secrets(p, q, x.tried, WAIT_TIMEOUT as int, x.id, now);
    if let Some(key) = x.key {
        match f {
            FailureView::Network(e) => {
                lemma_retry_ignores_secrets(p, q, x, key, upstream, "network: "@ + e, now);
            },
            FailureView::Status { status, retry_after, snip } => {
                let v = verdict(status, retry_after, snip);
                law_cooldown_is_capped(retry_after);
                lemma_marked_ok(p, key, v, noted(v, status), now);
                lemma_retry_ignores_secrets(
                    marked(p, key, v, noted(v, status), now),
                    marked(q, key, v, noted(v, status), now),
                    x,
                    key,
                    upstream,
                    last_error(v, status, snip),
                    now,
                );
            },
        }
    }
}

/// `a` and `b` leave the same exchange and call for the same action, over pools
/// that differ in nothing but secrets that end alike.
pub open spec fn same_turn(a: Turn, b: Turn) -> bool {
    model::alike(a.0, b.0) && a.1 == b.1 && a.2 == b.2
}

proof fn lemma_retry_ignores_secrets(
    p: PoolView,
    q: PoolView,
    x: ExchangeView,
    key: int,
    upstream: Seq<char>,
    error: Seq<char>,
    now: int,
)
    requires
        model::pool_ok(p),
        model::alike(p, q),
        fits(x, p),
        x.key == Some(key),
    ensures
        same_turn(
            retried(p, x, key, upstream, error, now),
            retried(q, x, key, upstream, error, now),
        ),
{
    lemma_forgotten_ok(p, x, key);
    laws::law_admission_ignores_secrets(
        model::freed(forgotten(p, x, key), key),
        model::freed(forgotten(q, x, key), key),
        x.tried.push(key as usize),
        WAIT_TIMEOUT as int,
        x.id,
        now,
    );
}

/// A response below 400 is a success of the key that served it: its strikes and
/// its cooldown are cleared, it is up unless it is dead, it has one success
/// more, and ties turn with it. No other key changes.
pub proof fn law_success_settles_the_key(p: PoolView, x: ExchangeView, status: int, key: int)
    requires
        fits(x, p),
        x.key == Some(key),
        status < 400,
    ensures
        ({
            let q = delivered(p, x, status);
            let before = p.states[key].health;
            let after = q.states[key].health;
            &&& after.strikes == 0
            &&& after.until is None
            &&& after.successes == before.successes + 1
            &&& after.fails == before.fails
            &&& after.last_error == before.last_error
            &&& before.state == State::Dead ==> after.state == State::Dead
            &&& before.state != State::Dead ==> after.state == State::Up
            &&& q.rr == key
            &&& q.states.len() == p.states.len()
            &&& forall|i: int|
                0 <= i < p.states.len() && i != key ==> #[trigger] q.states[i] == p.states[i]
        }),
{
}

/// A response of 400 or more, or one that needed no key, says nothing about any
/// key: no health, no tie and no pin changes.
pub proof fn law_errors_settle_nothing(p: PoolView, x: ExchangeView, status: int, i: int)
    requires
        fits(x, p),
        0 <= i < p.states.len(),
        status >= 400 || x.key is None,
    ensures
        delivered(p, x, status).states[i].health == p.states[i].health,
        delivered(p, x, status).rr == p.rr,
        delivered(p, x, status).pins == p.pins,
{
}

/// Nothing but a response of class 2xx to a request with an identity pins, and
/// it pins no other identity than its own.
pub proof fn law_only_2xx_pins(p: PoolView, x: ExchangeView, status: int, other: u64)
    requires
        model::pool_ok(p),
        fits(x, p),
    ensures
        !(200 <= status <= 299) ==> delivered(p, x, status).pins == p.pins,
        x.id is None ==> delivered(p, x, status).pins == p.pins,
        !p.affinity ==> delivered(p, x, status).pins == p.pins,
        x.id != Some(other) && affinity::pinned(delivered(p, x, status).pins, other)
            != affinity::pinned(p.pins, other) ==> p.pins.len() == p.pin_cap && p.pins[0].0
            == other,
{
    if let (Some(id), Some(key)) = (x.id, x.key) {
        affinity::law_pin_is_found(p.pins, p.pin_cap, id, key as usize, other);
    }
}

/// Two failures and then a success leave a clean record: the next failure is
/// the first of a new row, and the key stays up.
pub proof fn law_success_starts_the_count_over(
    p: PoolView,
    x: ExchangeView,
    status: int,
    key: int,
    now: int,
    reason: Seq<char>,
)
    requires
        fits(x, p),
        x.key == Some(key),
        status < 400,
        p.states[key].health.state != State::Dead,
    ensures
        ({
            let q = delivered(p, x, status);
            let after = marked(q, key, Verdict::Strike, reason, now).states[key].health;
            after.state == State::Up && after.strikes == 1 && after.until is None
        }),
{
}

/// A key is left alone after a 429 for exactly the seconds that the upstream
/// named, five minutes at most; for a minute where it named no number of
/// seconds.
pub proof fn law_named_delay_is_kept(retry_after: Option<Seq<char>>)
    ensures
        retry_after is None ==> cooldown(retry_after) == 60_000_000_000,
        retry_after matches Some(v) ==> {
            let t = text::trimmed(v);
            let digits = if t.len() > 0 && t[0] == '+' {
                t.skip(1)
            } else {
                t
            };
            let seconds = text::decimal_value(digits);
            if digits.len() > 0 && text::all_digits(digits) && seconds
                <= 18_446_744_073_709_551_615 {
                &&& seconds <= 300 ==> cooldown(retry_after) == seconds * 1_000_000_000
                &&& seconds > 300 ==> cooldown(retry_after) == 300_000_000_000
            } else {
                cooldown(retry_after) == 60_000_000_000
            }
        },
{
}

/// The number that a server writes is the number that is read: a delay of `s`
/// seconds, written in decimal, keeps a key out for `s` seconds or for five
/// minutes, whichever is less, from the moment of the answer.
pub proof fn law_written_delay_is_kept(
    p: PoolView,
    x: ExchangeView,
    upstream: Seq<char>,
    s: nat,
    snip: Seq<char>,
    now: int,
)
    requires
        fits(x, p),
        model::pool_ok(p),
        0 <= now,
        x.key is Some,
        p.states[x.key->0].health.state != State::Dead,
        1 <= s <= u64::MAX,
        can_fail(
            p,
            x,
            (FailureView::Status { status: 429, retry_after: Some(text::decimal(s)), snip }),
            now,
        ),
    ensures
        ({
            let q = failed(
                p,
                x,
                upstream,
                FailureView::Status { status: 429, retry_after: Some(text::decimal(s)), snip },
                now,
            ).0;
            let h = q.states[x.key->0].health;
            &&& h.state == State::Cooldown
            &&& h.until == Some(
                if s <= 300 {
                    now + s * 1_000_000_000
                } else {
                    now + 300_000_000_000
                },
            )
        }),
{
    text::law_decimal_reads_back(s);
    text::law_decimal_is_trim(s);
    law_named_delay_is_kept(Some(text::decimal(s)));
    law_rate_limit_cools(p, x, upstream, Some(text::decimal(s)), snip, now);
    let q = failed(
        p,
        x,
        upstream,
        FailureView::Status { status: 429, retry_after: Some(text::decimal(s)), snip },
        now,
    ).0;
    assert(model::refreshed(q.states[x.key->0].health, now).state == State::Cooldown);
}

/// What each status means: 401, and 403 where the body says so, kill; 429
/// cools; 500 to 599 strikes; anything else is relayed.
pub proof fn law_verdicts(status: int, retry_after: Option<Seq<char>>, snip: Seq<char>)
    ensures
        verdict(status, retry_after, snip) is Dead <==> status == 401 || (status == 403
            && text::occurs(snip, "Unauthorized"@)),
        verdict(status, retry_after, snip) is Cool <==> status == 429,
        verdict(status, retry_after, snip) is Strike <==> 500 <= status <= 599,
        status == 429 ==> verdict(status, retry_after, snip)->dur == cooldown(retry_after),
{
    law_cooldown_is_capped(retry_after);
}

/// A request is sent three times at most: a third failure ends it with a 502,
/// and before that a failure that another key may not have only ends it where
/// the pool has nothing to offer.
pub proof fn law_three_attempts(
    p: PoolView,
    x: ExchangeView,
    key: int,
    upstream: Seq<char>,
    error: Seq<char>,
    now: int,
)
    requires
        model::pool_ok(p),
        fits(x, p),
        x.key == Some(key),
    ensures
        x.retries <= 2,
        x.retries == 2 ==> {
            let (q, y, action) = retried(p, x, key, upstream, error, now);
            action is Reply && action->0.status == 502 && action->0.retry_after is None && y == x
        },
        x.retries < 2 ==> {
            let (q, y, action) = retried(p, x, key, upstream, error, now);
            &&& y.retries == x.retries + 1
            &&& action is Reply ==> action->0.status == 503 || action->0.status == 403
                || action->0.status == 429
        },
{
    if x.retries < 2 {
        lemma_forgotten_ok(p, x, key);
        let f = model::freed(forgotten(p, x, key), key);
        let tried = x.tried.push(key as usize);
        let q = match x.id {
            Some(i) => model::looked_up(f, i),
            None => f,
        };
        laws::lemma_lookup_ok(f, x.id);
        laws::law_admission(q, tried, WAIT_TIMEOUT as int, x.id, now);
    }
}

/// A request waits half a minute for a slot, and no longer.
pub proof fn law_waits_half_a_minute(p: PoolView, x: ExchangeView, now: int)
    requires
        model::pool_ok(p),
        !x.no_auth,
        begun(p, x, now).2 is Wait,
    ensures
        begun(p, x, now).1.ticket is Some,
        begun(p, x, now).1.ticket->0.deadline == now + 30_000_000_000,
{
    let q = match x.id {
        Some(i) => model::looked_up(p, i),
        None => p,
    };
    laws::lemma_lookup_ok(p, x.id);
    laws::law_admission(q, x.tried, WAIT_TIMEOUT as int, x.id, now);
}

/// After a failure that another key may not have, the conversation is pinned to
/// the key that the request moves to, or else no longer to the one that failed.
pub proof fn law_moving_on_moves_the_pin(
    p: PoolView,
    x: ExchangeView,
    key: int,
    upstream: Seq<char>,
    error: Seq<char>,
    now: int,
)
    requires
        model::pool_ok(p),
        fits(x, p),
        x.key == Some(key),
        x.id is Some,
        p.affinity,
    ensures
        ({
            let (q, y, action) = retried(p, x, key, upstream, error, now);
            if action is Send {
                model::pinned_key(q, x.id->0) == Some(y.key->0 as usize)
            } else {
                model::pinned_key(q, x.id->0) != Some(key as usize)
            }
        }),
{
    let id = x.id->0;
    lemma_forgotten_ok(p, x, key);
    affinity::law_unpin_needs_current_key(p.pins, id, key as usize, id);
    if x.retries + 1 < MAX_ATTEMPTS {
        let f = model::freed(forgotten(p, x, key), key);
        let tried = x.tried.push(key as usize);
        let o = model::admitted_affine(f, tried, WAIT_TIMEOUT as int, x.id, now).1;
        if o is Granted {
            laws::law_grant_pins(f, tried, WAIT_TIMEOUT as int, id, now);
        } else {
            laws::law_only_grants_pin(f, tried, WAIT_TIMEOUT as int, x.id, now, id);
        }
    }
}

/// How a request is said to have fared with its pin: not at all while affinity
/// is off or without an identity; as a hit where its conversation is pinned to
/// a key that it has not been on and that is up, under quota and free; else as
/// a miss.
pub proof fn law_affinity_is_reported(p: PoolView, x: ExchangeView, now: int)
    requires
        model::pool_ok(p),
    ensures
        ({
            let said = entered(p, x, now).1.affinity;
            if !p.affinity || x.id is None {
                said == Affinity::Off
            } else {
                match affinity::pinned(p.pins, x.id->0) {
                    Some(k) => {
                        let s = p.states[k as int];
                        let up = s.health.state == State::Up || (s.health.state
                            == State::Cooldown && s.health.until->0 <= now);
                        let over = p.threshold != 0 && p.over.contains(k as int);
                        let hit = up && !over && s.held < s.concurrency && !x.tried.contains(k);
                        said == if hit {
                            Affinity::Hit
                        } else {
                            Affinity::Miss
                        }
                    },
                    None => said == Affinity::Miss,
                }
            }
        }),
{
    if let Some(id) = x.id {
        affinity::lemma_position_range(p.pins, id);
        if let Some(k) = affinity::pinned(p.pins, id) {
            assert(model::key_ok(p.states[k as int]));
        }
    }
}

/// The paths that need no credential are these three, and a request begins
/// without a slot, a place or a try.
pub proof fn law_fresh_exchanges(path: Seq<char>, is_v1: bool, body: Option<BodyView>)
    ensures
        fresh(path, is_v1, body).no_auth <==> path == "api/tags"@ || path == "api/version"@ || path
            == "v1/models"@,
        fresh(path, is_v1, body).retries == 0,
        fresh(path, is_v1, body).tried.len() == 0,
        fresh(path, is_v1, body).key is None,
        fresh(path, is_v1, body).ticket is None,
        fresh(path, is_v1, body).is_v1 == is_v1,
        fresh(path, is_v1, body).id == affinity::identity(body, path),
{
}

/// Which key serves a request is told by the last four characters of its
/// secret, beside the number of attempts before.
pub proof fn law_served_tells_the_key(p: PoolView, x: ExchangeView)
    ensures
        served_by(p, x).retries == x.retries,
        served_by(p, x).affinity == x.affinity,
        x.key is None ==> served_by(p, x).suffix is None,
        x.key matches Some(key) ==> served_by(p, x).suffix is Some && {
            let s = served_by(p, x).suffix->0;
            &&& s.is_suffix_of(p.keys[key])
            &&& s.len() == if p.keys[key].len() <= 4 {
                p.keys[key].len()
            } else {
                4
            }
        },
{
    if let Some(key) = x.key {
        config::law_suffix_is_short(p.keys[key]);
    }
}

/// How a response that was sent counts for its key: as itself where all of it
/// went out; as a success where the client left in the middle of it; and as
/// none where its head was lost or the upstream broke off.
pub proof fn law_how_deliveries_count(
    p: PoolView,
    x: ExchangeView,
    status: int,
    key: int,
)
    requires
        fits(x, p),
        x.key == Some(key),
    ensures
        settled(Delivery::Complete, status) == status,
        ({
            let q = delivered(p, x, settled(Delivery::ClientGone, status));
            &&& q.states[key].health.successes == p.states[key].health.successes + 1
            &&& q.states[key].health.strikes == 0
            &&& q.rr == key
        }),
        delivered(p, x, settled(Delivery::HeadLost, status)).states[key].health
            == p.states[key].health,
        delivered(p, x, settled(Delivery::Broken, status)).states[key].health
            == p.states[key].health,
        settled(Delivery::HeadLost, status) == 500,
        settled(Delivery::Broken, status) == 502,
{
}

/// No more of an error body is looked at than its first 256 bytes.
pub proof fn law_snippets_are_short(body: Seq<u8>)
    ensures
        affinity::capped(body, SNIPPET as nat) == affinity::first_bytes(body, 256),
{
    assert(affinity::capped(body, SNIPPET as nat) =~= affinity::first_bytes(body, 256));
}

/// A request that is refused is told so as the pool says: with its status, its
/// reason in the shape of the surface, and its time to wait. One that is
/// granted a slot is sent, and one that is not yet waits.
pub proof fn law_admissions_are_followed(p: PoolView, x: ExchangeView, now: int)
    ensures
        ({
            let (q, o) = model::admitted_affine(p, x.tried, 30_000_000_000, x.id, now);
            let (r, y, action) = entered(p, x, now);
            &&& r == q
            &&& y.retries == x.retries
            &&& y.tried == x.tried
            &&& y.id == x.id
            &&& match o {
                Outcome::Granted { key } => action is Send && y.key == Some(key) && y.ticket is None,
                Outcome::Queued { ticket } => action is Wait && y.key is None && y.ticket == Some(
                    ticket,
                ),
                Outcome::Rejected { status, reason, retry_after } => {
                    &&& y.key is None
                    &&& y.ticket is None
                    &&& action is Reply
                    &&& action->0.status == status
                    &&& action->0.retry_after == retry_after
                    &&& action->0.body == crate::proxy::error_body(x.is_v1, reason, status)
                },
            }
        }),
{
}

/// A request that waits and asks again is treated the same.
pub proof fn law_wakings_are_followed(p: PoolView, x: ExchangeView, now: int)
    requires
        x.ticket is Some,
    ensures
        ({
            let (q, o) = model::resumed(p, x.ticket->0, now);
            let (r, y, action) = woken(p, x, now);
            &&& r == q
            &&& o matches Outcome::Granted { key } ==> action is Send && y.key == Some(key)
                && y.ticket is None
            &&& o matches Outcome::Queued { ticket } ==> action is Wait && y.key is None
                && y.ticket == Some(ticket)
            &&& o is Rejected ==> action is Reply && action->0.status == o->status
                && action->0.retry_after == o->retry_after && y.key is None && y.ticket is None
        }),
{
}

/// A failure of the network, and an answer that is about the key or the
/// upstream, lead to another attempt while one is left, and never to a relay;
/// any other answer is relayed at once. A request that needs no key is tried
/// once: its answer is relayed, and without one it ends with a 502.
pub proof fn law_failures_lead_on(
    p: PoolView,
    x: ExchangeView,
    upstream: Seq<char>,
    f: FailureView,
    now: int,
)
    requires
        fits(x, p),
    ensures
        ({
            let (q, y, action) = failed(p, x, upstream, f, now);
            let retryable = match f {
                FailureView::Network(_) => true,
                FailureView::Status { status, retry_after, snip } => status == 401 || (status
                    == 403 && text::occurs(snip, "Unauthorized"@)) || status == 429 || (500
                    <= status <= 599),
            };
            &&& x.key is Some && retryable && x.retries < 2 ==> !(action is Relay) && y.retries
                == x.retries + 1 && y.tried == x.tried.push(x.key->0 as usize)
            &&& x.key is Some && retryable && x.retries == 2 ==> action is Reply
                && action->0.status == 502 && y == x
            &&& !retryable ==> action is Relay && q == p && y == x
            &&& x.key is None && f is Status ==> action is Relay && q == p && y == x
            &&& x.key is None && f is Network ==> action is Reply && action->0.status == 502 && q
                == p && y == x
        }),
{
}

/// What a client is told in the end names the upstream and what went wrong.
pub proof fn law_messages_name_the_cause(attempts: nat, upstream: Seq<char>, error: Seq<char>)
    ensures
        text::occurs(exhausted(attempts as int, upstream, error), upstream),
        text::occurs(exhausted(attempts as int, upstream, error), error),
        text::occurs(exhausted(attempts as int, upstream, error), text::decimal(attempts)),
        text::occurs(unreachable_text(upstream, error), upstream),
        text::occurs(unreachable_text(upstream, error), error),
{
    let n = text::decimal(attempts);
    let a = "ollamux exhausted all "@;
    let b = " failover attempt(s) against "@;
    let c = "; last error: "@;
    let d = ". Per-key state: GET /_keys. The keys each cool down and recover automatically, so retrying later may succeed."@;
    let all = exhausted(attempts as int, upstream, error);
    text::law_what_is_there_occurs(a, n, b + upstream + c + error + d);
    assert(all =~= a + n + (b + upstream + c + error + d));
    text::law_what_is_there_occurs(a + n + b, upstream, c + error + d);
    assert(all =~= (a + n + b) + upstream + (c + error + d));
    text::law_what_is_there_occurs(a + n + b + upstream + c, error, d);
    let e = "ollamux could not reach the upstream ("@;
    let f = "): "@;
    let g = ". Check network access and per-key state via GET /_keys; no automatic retry applies to this endpoint — repeat the request."@;
    let none = unreachable_text(upstream, error);
    text::law_what_is_there_occurs(e, upstream, f + error + g);
    assert(none =~= e + upstream + (f + error + g));
    text::law_what_is_there_occurs(e + upstream + f, error, g);
}

/// The last word to a client whose third attempt failed: a 502 that names the
/// attempts, the upstream, and why the last one failed.
pub proof fn law_last_words(
    p: PoolView,
    x: ExchangeView,
    upstream: Seq<char>,
    f: FailureView,
    now: int,
)
    requires
        fits(x, p),
        x.key is Some ==> x.retries == 2,
        f is Status ==> x.key is Some && {
            let status = f->status;
            status == 401 || (status == 403 && text::occurs(f->snip, "Unauthorized"@)) || status
                == 429 || 500 <= status <= 599
        },
    ensures
        ({
            let action = failed(p, x, upstream, f, now).2;
            let why = match f {
                FailureView::Network(e) => "network: "@ + e,
                FailureView::Status { status, retry_after, snip } => if status == 401 || status
                    == 403 {
                    "unauthorized: "@ + snip
                } else if status == 429 {
                    "429: "@ + snip
                } else {
                    "upstream "@ + text::decimal(status as nat)
                },
            };
            let said = if x.key is Some {
                exhausted(3, upstream, why)
            } else {
                unreachable_text(upstream, why)
            };
            &&& action is Reply
            &&& action->0.status == 502
            &&& action->0.retry_after is None
            &&& action->0.body == crate::proxy::error_body(x.is_v1, said, 502)
        }),
{
}

/// What is noted of a key is why it failed, in the proxy's own words.
pub proof fn law_reasons_are_noted(
    p: PoolView,
    x: ExchangeView,
    upstream: Seq<char>,
    status: int,
    retry_after: Option<Seq<char>>,
    snip: Seq<char>,
    now: int,
)
    requires
        fits(x, p),
        model::pool_ok(p),
        0 <= now,
        x.key is Some,
        can_fail(p, x, (FailureView::Status { status, retry_after, snip }), now),
        status == 401 || (status == 403 && text::occurs(snip, "Unauthorized"@)) || status == 429
            || 500 <= status <= 599,
    ensures
        ({
            let q = failed(
                p,
                x,
                upstream,
                FailureView::Status { status, retry_after, snip },
                now,
            ).0;
            let h = q.states[x.key->0].health;
            &&& h.last_error == Some(
                if status == 401 || status == 403 {
                    "upstream says unauthorized"@
                } else if status == 429 {
                    "429"@
                } else {
                    "upstream "@ + text::decimal(status as nat)
                },
            )
            &&& h.fails == p.states[x.key->0].health.fails + if 500 <= status <= 599
                && p.states[x.key->0].health.strikes == 2 {
                2int
            } else {
                1
            }
            &&& h.successes == p.states[x.key->0].health.successes
        }),
{
    let key = x.key->0;
    let v = verdict(status, retry_after, snip);
    assert(model::key_ok(p.states[key]));
    law_cooldown_is_capped(retry_after);
    lemma_marked_ok(p, key, v, noted(v, status), now);
    law_moving_on_keeps_health(
        marked(p, key, v, noted(v, status), now),
        x,
        key,
        upstream,
        last_error(v, status, snip),
        now,
        key,
    );
}

} // verus!
