//! What a pool is and what becomes of it, as mathematics: the states of keys,
//! the order in which keys are preferred, and admission.

use vstd::prelude::*;
use vstd::string::*;

use crate::affinity;
use crate::config;
use crate::pool::{
    Admission, Reject, State, UsageBrief, ALL_COOLING, ALL_DEAD, COOLDOWN_429,
    NANOS_PER_SEC, NO_KEYS, QUEUED_TOO_LONG, QUEUE_FULL, STRIKES_TO_COOL, WAIT_CHUNK,
};
use crate::usage::{at_threshold, KeyUsage};

verus! {

// ---------------------------------------------------------------------------
// Values
// ---------------------------------------------------------------------------

#[verifier::ext_equal]
pub struct HealthView {
    pub state: State,
    pub until: Option<int>,
    pub strikes: int,
    pub fails: int,
    pub successes: int,
    pub last_error: Option<Seq<char>>,
}

#[verifier::ext_equal]
pub struct KeyView {
    pub concurrency: int,
    pub held: int,
    pub waiters: int,
    pub waiter_cap: int,
    pub health: HealthView,
}

#[verifier::ext_equal]
pub struct PoolView {
    pub keys: Seq<Seq<char>>,
    pub states: Seq<KeyView>,
    pub rr: int,
    pub verbose: bool,
    /// Tenths of a percent; 0 is off.
    pub threshold: int,
    /// Keys that quota-aware routing serves last.
    pub over: Set<int>,
    pub affinity: bool,
    /// Identities and their keys, the least recently used first.
    pub pins: Seq<(u64, usize)>,
    pub pin_cap: nat,
}

#[verifier::ext_equal]
pub struct TicketView {
    pub key: int,
    pub deadline: int,
    pub id: Option<u64>,
}

/// What is shown of one key.
#[verifier::ext_equal]
pub struct InfoView {
    pub index: int,
    pub suffix: Seq<char>,
    pub state: State,
    pub concurrency: int,
    pub in_use: int,
    pub waiters: int,
    pub cooldown_left_s: Option<int>,
    pub strikes: int,
    pub fails: int,
    pub successes: int,
    pub last_error: Option<Seq<char>>,
    pub usage: Option<UsageBrief>,
}

/// How an admission ended, as a mathematical value.
#[verifier::ext_equal]
pub enum Outcome {
    Granted { key: int },
    Queued { ticket: TicketView },
    Rejected { status: int, reason: Seq<char>, retry_after: Option<int> },
}

/// What holds of every key: it never has more requests in flight than slots,
/// nor more waiters than its queue takes, a cooldown is a state with an end,
/// and strikes that reach the limit are cleared.
pub open spec fn key_ok(k: KeyView) -> bool {
    &&& 1 <= k.concurrency <= u32::MAX
    &&& 0 <= k.held <= k.concurrency
    &&& 0 <= k.waiters <= k.waiter_cap <= u32::MAX
    &&& k.health.state == State::Cooldown <==> k.health.until is Some
    &&& k.health.until matches Some(t) ==> 0 <= t <= u64::MAX
    &&& 0 <= k.health.strikes < STRIKES_TO_COOL
    &&& 0 <= k.health.fails <= u64::MAX
    &&& 0 <= k.health.successes <= u64::MAX
}

/// What holds of every pool.
pub open spec fn pool_ok(p: PoolView) -> bool {
    &&& p.keys.len() == p.states.len() <= usize::MAX
    &&& forall|i: int| 0 <= i < p.states.len() ==> key_ok(#[trigger] p.states[i])
    &&& 0 <= p.rr
    &&& p.rr < p.states.len() || p.rr == 0
    &&& 0 <= p.threshold
    &&& forall|i: int| p.over.contains(i) ==> 0 <= i < 64
    &&& affinity::distinct_ids(p.pins)
    &&& 1 <= p.pin_cap
    &&& p.pins.len() <= p.pin_cap
    &&& forall|i: int| 0 <= i < p.pins.len() ==> (#[trigger] p.pins[i]).1 < p.states.len()
}

// ---------------------------------------------------------------------------
// Health
// ---------------------------------------------------------------------------

/// A key as it starts out.
pub open spec fn fresh_key(concurrency: int, waiter_cap: int) -> KeyView {
    KeyView {
        concurrency: if concurrency >= 1 {
            concurrency
        } else {
            1
        },
        held: 0,
        waiters: 0,
        waiter_cap,
        health: HealthView {
            state: State::Up,
            until: None,
            strikes: 0,
            fails: 0,
            successes: 0,
            last_error: None,
        },
    }
}

/// `h` as seen at `now`: a cooldown that has run out is over.
pub open spec fn refreshed(h: HealthView, now: int) -> HealthView {
    if h.state == State::Cooldown && !(h.until is Some && h.until->0 > now) {
        HealthView { state: State::Up, until: None, ..h }
    } else {
        h
    }
}

/// `k` as seen at `now`.
pub open spec fn seen(k: KeyView, now: int) -> KeyView {
    KeyView { health: refreshed(k.health, now), ..k }
}

/// The state of `k` at `now`.
pub open spec fn state_at(k: KeyView, now: int) -> State {
    refreshed(k.health, now).state
}

/// `p` with key `key` replaced by `k`.
pub open spec fn with_key(p: PoolView, key: int, k: KeyView) -> PoolView {
    PoolView { states: p.states.update(key, k), ..p }
}

/// `p` with the health of key `key` replaced by `h`.
pub open spec fn with_health(p: PoolView, key: int, h: HealthView) -> PoolView {
    with_key(p, key, KeyView { health: h, ..p.states[key] })
}

/// `p` with every key seen at `now`.
pub open spec fn all_seen(p: PoolView, now: int) -> PoolView {
    PoolView { states: p.states.map_values(|k: KeyView| seen(k, now)), ..p }
}

/// `h` after the upstream rejected the key: dead for good.
pub open spec fn died(h: HealthView, reason: Seq<char>) -> HealthView {
    HealthView {
        state: State::Dead,
        until: None,
        strikes: 0,
        fails: h.fails + 1,
        last_error: Some(reason),
        ..h
    }
}

/// `h` after the key was put in cooldown until `until`. A dead key stays dead.
pub open spec fn cooled(h: HealthView, until: int, reason: Seq<char>) -> HealthView {
    let noted = HealthView { fails: h.fails + 1, last_error: Some(reason), ..h };
    if h.state == State::Dead {
        noted
    } else {
        HealthView { state: State::Cooldown, until: Some(until), ..noted }
    }
}

/// `h` after one upstream failure at `now`: the last of `STRIKES_TO_COOL` in a
/// row puts the key in cooldown and clears the count.
pub open spec fn struck(h: HealthView, now: int, reason: Seq<char>) -> HealthView {
    let noted = HealthView {
        strikes: h.strikes + 1,
        fails: h.fails + 1,
        last_error: Some(reason),
        ..h
    };
    if noted.strikes >= STRIKES_TO_COOL {
        HealthView { strikes: 0, ..cooled(noted, now + COOLDOWN_429, reason) }
    } else {
        noted
    }
}

/// `h` after a confirmed success: strikes and cooldown are cleared. A dead key
/// stays dead.
pub open spec fn succeeded(h: HealthView) -> HealthView {
    HealthView {
        state: if h.state == State::Dead {
            State::Dead
        } else {
            State::Up
        },
        until: None,
        strikes: 0,
        successes: h.successes + 1,
        ..h
    }
}

/// The next failure of `h` is the one that puts the key in cooldown.
pub open spec fn third_strike(h: HealthView) -> bool {
    h.strikes + 1 >= STRIKES_TO_COOL
}

/// There is room to count `n` failures more of `h`. A failure that puts the key
/// in cooldown counts for two.
pub open spec fn can_fail(h: HealthView, n: int) -> bool {
    h.fails + n <= u64::MAX
}

/// There is room to count a success of `h`.
pub open spec fn can_succeed(h: HealthView) -> bool {
    h.successes + 1 <= u64::MAX
}

// ---------------------------------------------------------------------------
// Usage and pins
// ---------------------------------------------------------------------------

/// The slots of all keys together.
pub open spec fn slots(states: Seq<KeyView>) -> int
    decreases states.len(),
{
    if states.len() == 0 {
        0
    } else {
        slots(states.drop_last()) + states.last().concurrency
    }
}

/// The keys that `rows` show at or over `threshold`. Keys past index 63 are
/// never among them, and nobody is while the threshold is 0.
pub open spec fn over_threshold(rows: Seq<KeyUsage>, threshold: int) -> Set<int> {
    Set::new(
        |i: int|
            threshold != 0 && i < 64 && exists|j: int|
                0 <= j < rows.len() && (#[trigger] rows[j]).index == i && at_threshold(
                    rows[j].session,
                    threshold,
                ),
    )
}

/// The usage figures of one row.
pub open spec fn brief(row: KeyUsage, threshold: int) -> Option<UsageBrief> {
    if row.session is None && row.weekly is None {
        None
    } else {
        Some(
            UsageBrief {
                session: row.session,
                weekly: row.weekly,
                session_pct: match row.session {
                    Some(s) => Some(s.pct_x10),
                    None => None,
                },
                weekly_pct: match row.weekly {
                    Some(s) => Some(s.pct_x10),
                    None => None,
                },
                over_quota: threshold != 0 && at_threshold(row.session, threshold),
            },
        )
    }
}

/// `p` with quota-aware routing from `pct` percent on; 0 turns it off.
pub open spec fn with_threshold(p: PoolView, pct: int) -> PoolView {
    PoolView { threshold: pct * 10, ..p }
}

/// Quota-aware routing is on and serves `key` last.
pub open spec fn over_quota(p: PoolView, key: int) -> bool {
    p.threshold != 0 && p.over.contains(key)
}

/// The key that `id` is pinned to, while affinity is on.
pub open spec fn pinned_key(p: PoolView, id: u64) -> Option<usize> {
    if p.affinity {
        affinity::pinned(p.pins, id)
    } else {
        None
    }
}

/// `p` after `id` has been looked up.
pub open spec fn looked_up(p: PoolView, id: u64) -> PoolView {
    if p.affinity {
        PoolView { pins: affinity::touched(p.pins, id), ..p }
    } else {
        p
    }
}

/// `p` after `id` has been pinned to `key`.
pub open spec fn with_pin(p: PoolView, id: u64, key: usize) -> PoolView {
    if p.affinity {
        PoolView { pins: affinity::repinned(p.pins, p.pin_cap, id, key), ..p }
    } else {
        p
    }
}

/// Key `key` has a free slot.
pub open spec fn has_room(p: PoolView, key: int) -> bool {
    p.states[key].held < p.states[key].concurrency
}

/// `id` has a pin whose key could serve at `now`.
pub open spec fn pin_serves(p: PoolView, id: u64, now: int) -> bool {
    match pinned_key(p, id) {
        Some(key) => state_at(p.states[key as int], now) == State::Up && !over_quota(
            p,
            key as int,
        ) && has_room(p, key as int),
        None => false,
    }
}

// ---------------------------------------------------------------------------
// Observation
// ---------------------------------------------------------------------------

/// Key `key` is up.
pub open spec fn is_up(p: PoolView, key: int) -> bool {
    p.states[key].health.state == State::Up
}

pub open spec fn any_up(p: PoolView) -> bool {
    exists|i: int| 0 <= i < p.states.len() && #[trigger] is_up(p, i)
}

pub open spec fn all_dead(p: PoolView) -> bool {
    forall|i: int|
        0 <= i < p.states.len() ==> (#[trigger] p.states[i]).health.state == State::Dead
}

/// No key before `i` is up at `now`.
pub open spec fn none_up_before(p: PoolView, i: int, now: int) -> bool {
    forall|j: int| 0 <= j < i ==> state_at(#[trigger] p.states[j], now) != State::Up
}

/// `p` after its keys were looked at in order at `now`, up to the first that
/// is up.
pub open spec fn seen_until_up(p: PoolView, now: int) -> PoolView {
    PoolView {
        states: Seq::new(
            p.states.len(),
            |i: int|
                if none_up_before(p, i, now) {
                    seen(p.states[i], now)
                } else {
                    p.states[i]
                },
        ),
        ..p
    }
}

/// The earlier of two instants, where there are any.
pub open spec fn earlier(a: Option<int>, b: Option<int>) -> Option<int> {
    match (a, b) {
        (Some(x), Some(y)) => if y < x {
            b
        } else {
            a
        },
        (None, _) => b,
        (_, None) => a,
    }
}

/// When the first of the cooldowns under way ends.
pub open spec fn soonest(states: Seq<KeyView>) -> Option<int>
    decreases states.len(),
{
    if states.len() == 0 {
        None
    } else {
        earlier(
            soonest(states.drop_last()),
            if states.last().health.state == State::Cooldown {
                states.last().health.until
            } else {
                None
            },
        )
    }
}

/// The time from `now` to `t`, if that lies ahead.
pub open spec fn time_to(t: int, now: int) -> int {
    if t > now {
        t - now
    } else {
        0
    }
}

/// What there is to show at `now` of key `i` of `p`, whose keys have been seen
/// at `now`.
pub open spec fn shown(p: PoolView, i: int, now: int) -> InfoView {
    let k = p.states[i];
    InfoView {
        index: i,
        suffix: config::suffix_of(p.keys[i]),
        state: k.health.state,
        concurrency: k.concurrency,
        in_use: k.held,
        waiters: k.waiters,
        cooldown_left_s: match k.health.until {
            Some(t) => Some((t - now) / 1_000_000_000 + 1),
            None => None,
        },
        strikes: k.health.strikes,
        fails: k.health.fails,
        successes: k.health.successes,
        last_error: k.health.last_error,
        usage: None,
    }
}

/// The report on all keys of `p` at `now`.
pub open spec fn report(p: PoolView, now: int) -> Seq<InfoView> {
    Seq::new(p.states.len(), |i: int| shown(all_seen(p, now), i, now))
}

/// `q` differs from `p` at most in the secrets of its keys, and those end
/// alike.
pub open spec fn alike(p: PoolView, q: PoolView) -> bool {
    &&& q == (PoolView { keys: q.keys, ..p })
    &&& q.keys.len() == p.keys.len()
    &&& forall|i: int|
        0 <= i < p.keys.len() ==> config::suffix_of(#[trigger] p.keys[i]) == config::suffix_of(
            q.keys[i],
        )
}

// ---------------------------------------------------------------------------
// Selection
// ---------------------------------------------------------------------------

/// `key` is among `tried`.
pub open spec fn is_tried(tried: Seq<usize>, key: int) -> bool {
    tried.contains(key as usize)
}

/// How busy key `key` is, in 1024ths of its slots.
pub open spec fn load(p: PoolView, key: int) -> int {
    (p.states[key].held * 1024) / p.states[key].concurrency
}

/// The turn of key `key` among equals: the tie-breaker counts the keys round.
pub open spec fn turn(p: PoolView, key: int) -> int {
    if key + p.rr < p.states.len() {
        key + p.rr
    } else {
        key + p.rr - p.states.len()
    }
}

/// `i` is preferred to `j`: keys not tried yet come first, then keys that are
/// not over quota, then the less loaded, then whose turn it is.
pub open spec fn preferred(p: PoolView, tried: Seq<usize>, i: int, j: int) -> bool {
    if is_tried(tried, i) != is_tried(tried, j) {
        is_tried(tried, j)
    } else if over_quota(p, i) != over_quota(p, j) {
        over_quota(p, j)
    } else if load(p, i) != load(p, j) {
        load(p, i) < load(p, j)
    } else {
        turn(p, i) < turn(p, j)
    }
}

/// `r` lists the keys of `p` that are up, each once, the preferred first.
pub open spec fn is_ranking(p: PoolView, tried: Seq<usize>, r: Seq<usize>) -> bool {
    &&& forall|i: int|
        0 <= i < r.len() ==> (#[trigger] r[i]) < p.states.len() && is_up(p, r[i] as int)
    &&& forall|k: int|
        0 <= k < p.states.len() && #[trigger] is_up(p, k) ==> r.contains(k as usize)
    &&& forall|i: int, j: int|
        0 <= i < j < r.len() ==> preferred(
            p,
            tried,
            #[trigger] r[i] as int,
            #[trigger] r[j] as int,
        )
}

/// Key `key` is up and, if `free`, has a free slot.
pub open spec fn eligible(p: PoolView, free: bool, key: int) -> bool {
    0 <= key < p.states.len() && is_up(p, key) && (free ==> has_room(p, key))
}

/// `key` is eligible and preferred to every other eligible key.
pub open spec fn leads(p: PoolView, tried: Seq<usize>, free: bool, key: int) -> bool {
    &&& eligible(p, free, key)
    &&& forall|j: int| #[trigger] eligible(p, free, j) && j != key ==> preferred(p, tried, key, j)
}

/// The eligible key that is preferred to all others.
pub open spec fn leader(p: PoolView, tried: Seq<usize>, free: bool) -> int {
    choose|key: int| leads(p, tried, free, key)
}

// ---------------------------------------------------------------------------
// Admission
// ---------------------------------------------------------------------------

/// `r` as a mathematical value.
pub open spec fn outcome(r: Result<Admission, Reject>) -> Outcome {
    match r {
        Ok(Admission::Granted(permit)) => Outcome::Granted { key: permit@ },
        Ok(Admission::Queued(ticket)) => Outcome::Queued { ticket: ticket@ },
        Err(reject) => Outcome::Rejected {
            status: reject.status as int,
            reason: reject.reason@,
            retry_after: match reject.retry_after_s {
                Some(s) => Some(s as int),
                None => None,
            },
        },
    }
}

/// `p` with one more slot of key `key` taken.
pub open spec fn taken(p: PoolView, key: int) -> PoolView {
    with_key(p, key, KeyView { held: p.states[key].held + 1, ..p.states[key] })
}

/// `p` with one slot of key `key` given back.
pub open spec fn freed(p: PoolView, key: int) -> PoolView {
    with_key(
        p,
        key,
        KeyView {
            held: if p.states[key].held > 0 {
                p.states[key].held - 1
            } else {
                0
            },
            ..p.states[key]
        },
    )
}

/// `p` with one more request waiting for key `key`.
pub open spec fn joined(p: PoolView, key: int) -> PoolView {
    with_key(p, key, KeyView { waiters: p.states[key].waiters + 1, ..p.states[key] })
}

/// `p` with one request fewer waiting for key `key`.
pub open spec fn parted(p: PoolView, key: int) -> PoolView {
    with_key(
        p,
        key,
        KeyView {
            waiters: if p.states[key].waiters > 0 {
                p.states[key].waiters - 1
            } else {
                0
            },
            ..p.states[key]
        },
    )
}

/// No more requests may wait for key `key`.
pub open spec fn queue_full(p: PoolView, key: int) -> bool {
    p.states[key].waiters >= p.states[key].waiter_cap
}

/// The seconds that a client is told to wait for a key to end its cooldown.
pub open spec fn retry_seconds(p: PoolView, now: int) -> int {
    let s = time_to(soonest(p.states)->0, now) / NANOS_PER_SEC as int;
    if s >= 1 {
        s
    } else {
        1
    }
}

/// Waiting for key `key` at `now`, for at most `timeout`.
pub open spec fn waited(
    p: PoolView,
    key: int,
    timeout: int,
    id: Option<u64>,
    now: int,
) -> (PoolView, Outcome) {
    if queue_full(p, key) {
        (p, Outcome::Rejected { status: 429, reason: QUEUE_FULL@, retry_after: Some(2) })
    } else if has_room(p, key) {
        (taken(p, key), Outcome::Granted { key })
    } else if timeout == 0 {
        (p, Outcome::Rejected { status: 429, reason: QUEUED_TOO_LONG@, retry_after: Some(1) })
    } else {
        (
            joined(p, key),
            Outcome::Queued { ticket: TicketView { key, deadline: now + timeout, id } },
        )
    }
}

/// Some key is up and has a free slot.
pub open spec fn some_free(p: PoolView) -> bool {
    exists|key: int| #[trigger] eligible(p, true, key)
}

/// Admission at `now` of a request that has been on the keys `tried`: what
/// becomes of the pool, and of the request.
pub open spec fn admitted(
    p: PoolView,
    tried: Seq<usize>,
    timeout: int,
    id: Option<u64>,
    now: int,
) -> (PoolView, Outcome) {
    let q = all_seen(p, now);
    if q.states.len() == 0 {
        (q, Outcome::Rejected { status: 503, reason: NO_KEYS@, retry_after: None })
    } else if all_dead(q) {
        (q, Outcome::Rejected { status: 403, reason: ALL_DEAD@, retry_after: None })
    } else if !any_up(q) {
        (
            q,
            Outcome::Rejected {
                status: 429,
                reason: ALL_COOLING@,
                retry_after: Some(retry_seconds(q, now)),
            },
        )
    } else if some_free(q) {
        let key = leader(q, tried, true);
        (taken(q, key), Outcome::Granted { key })
    } else {
        waited(q, leader(q, tried, false), timeout, id, now)
    }
}

/// `a` with the identity `id` pinned to the key that was granted, if one was.
pub open spec fn pinning(a: (PoolView, Outcome), id: Option<u64>) -> (PoolView, Outcome) {
    match (id, a.1) {
        (Some(id), Outcome::Granted { key }) => (with_pin(a.0, id, key as usize), a.1),
        _ => a,
    }
}

/// `id` has a pin that could serve at `now`, on a key that is not in `tried`.
pub open spec fn pin_serves_anew(p: PoolView, tried: Seq<usize>, id: u64, now: int) -> bool {
    pin_serves(p, id, now) && !is_tried(tried, pinned_key(p, id)->0 as int)
}

/// Admission with affinity: a pin that can serve right now decides, else it is
/// as without. The key that is granted becomes the pin.
pub open spec fn admitted_affine(
    p: PoolView,
    tried: Seq<usize>,
    timeout: int,
    id: Option<u64>,
    now: int,
) -> (PoolView, Outcome) {
    match id {
        Some(i) => {
            let q = looked_up(p, i);
            if pin_serves_anew(p, tried, i, now) {
                let key = pinned_key(p, i)->0 as int;
                pinning(
                    (
                        taken(with_key(q, key, seen(q.states[key], now)), key),
                        Outcome::Granted { key },
                    ),
                    id,
                )
            } else {
                pinning(admitted(q, tried, timeout, id, now), id)
            }
        },
        None => admitted(p, tried, timeout, id, now),
    }
}

/// A waiting request asks again at `now`.
pub open spec fn resumed(p: PoolView, ticket: TicketView, now: int) -> (PoolView, Outcome) {
    if has_room(p, ticket.key) {
        pinning(
            (parted(taken(p, ticket.key), ticket.key), Outcome::Granted { key: ticket.key }),
            ticket.id,
        )
    } else if now >= ticket.deadline {
        (
            parted(p, ticket.key),
            Outcome::Rejected { status: 429, reason: QUEUED_TOO_LONG@, retry_after: Some(1) },
        )
    } else {
        (p, Outcome::Queued { ticket })
    }
}

/// How long the holder of `ticket` may sleep at `now` before it asks again.
pub open spec fn pause_of(ticket: TicketView, now: int) -> int {
    if time_to(ticket.deadline, now) < WAIT_CHUNK {
        time_to(ticket.deadline, now)
    } else {
        WAIT_CHUNK as int
    }
}

} // verus!
