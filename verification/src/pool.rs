//! The key pool: per-key slots, health, and selection.
//!
//! A pool is plain data: every method runs at one instant, which the caller
//! passes as `now`, in nanoseconds on a clock of its choice. Waiting is the
//! caller's: a request that finds no free slot gets a ticket, and asks again.

use vstd::prelude::*;
use vstd::string::*;

use crate::affinity::{self, AffinityMap};
use crate::config;
use crate::laws::{
    law_admission, lemma_first_leads, lemma_insert_keeps_ranking, lemma_over_threshold_step,
    lemma_repin_keeps_keys, lemma_seen_again, lemma_seen_ok, lemma_slots_grow, lemma_soonest,
    lemma_touch_keeps_keys, lemma_unpin_keeps_keys,
};
use crate::model::{
    admitted, admitted_affine, all_dead, all_seen, any_up, brief, can_fail, can_succeed, cooled,
    died, eligible, freed, fresh_key, has_room, is_ranking, is_tried, is_up, joined, key_ok, load,
    looked_up, none_up_before, outcome, over_quota, over_threshold, parted, pause_of, pin_serves,
    pin_serves_anew, pinned_key, pool_ok, preferred, queue_full, report, resumed, seen,
    seen_until_up, shown, slots, soonest, state_at, struck, succeeded, taken, third_strike, time_to,
    turn, waited, with_health, with_key, with_pin, with_threshold, HealthView, InfoView, KeyView,
    PoolView, TicketView,
};
use crate::text;
use crate::usage::{KeyUsage, Share, UsageSnapshot};

verus! {

pub const NANOS_PER_SEC: u64 = 1_000_000_000;

/// Cooldown after a 429 that names no delay, and after repeated failures.
pub const COOLDOWN_429: u64 = 60_000_000_000;

/// Consecutive upstream failures that put a key in cooldown.
pub const STRIKES_TO_COOL: u32 = 3;

/// Pins that the affinity map has room for.
pub const AFFINITY_CAP: usize = 4096;

/// How long a waiting request may sleep before it asks again.
pub const WAIT_CHUNK: u64 = 250_000_000;

/// Nothing to serve with.
pub const NO_KEYS: &'static str = "ollamux has no API keys configured; set OLLAMUX_KEYS or create ~/.config/ollamux/keys (one key per line, https://ollama.com/settings/keys), then restart";

/// Every key is dead.
pub const ALL_DEAD: &'static str = "all ollamux API keys were rejected by https://ollama.com as invalid (401/403): check the keys at https://ollama.com/settings/keys and restart ollamux — dead keys stay dead until restart. Per-key state: GET /_keys";

/// No key is up, but some will be.
pub const ALL_COOLING: &'static str = "all ollamux keys are cooling down (rate-limited by https://ollama.com) and recover automatically; wait for the Retry-After header, then retry. Per-key state: GET /_keys";

/// No slot is free, and nobody more may wait.
pub const QUEUE_FULL: &'static str = "ollamux is overloaded: every key is at its concurrency limit and the wait queue is full; raise per-key concurrency (KEY:N in the keys file) or add more keys. Retry shortly";

/// No slot came free in time.
pub const QUEUED_TOO_LONG: &'static str = "ollamux is overloaded: the request queued too long for a free key slot; raise per-key concurrency (KEY:N in the keys file) or reduce parallel requests. Retry via Retry-After";

#[derive(Debug, Clone, Copy, PartialEq, Eq, Structural)]
pub enum State {
    Up,
    Cooldown,
    Dead,
}

struct Health {
    state: State,
    cooldown_until: Option<u64>,
    /// Consecutive strikes.
    strikes: u32,
    fails: u64,
    successes: u64,
    last_error: Option<String>,
}

/// One key's slots, queue and health.
pub struct KeyState {
    /// How many requests the key may serve at once.
    pub concurrency: u32,
    held: u32,
    waiters: u32,
    /// How many requests may wait for the key.
    pub waiter_cap: u32,
    health: Health,
}

/// The keys, and what is known of each.
pub struct Pool {
    keys: Vec<String>,
    states: Vec<KeyState>,
    /// Tie-breaker: the last successful key.
    rr: usize,
    verbose: bool,
    /// Quota-aware routing threshold in tenths of a percent; 0 is off.
    usage_threshold_x10: u64,
    /// Bit `i` is set when key `i` is at or over the threshold. Keys past bit
    /// 63 have no bit and are never demoted.
    over_quota_mask: u64,
    affinity_enabled: bool,
    affinity: AffinityMap,
}

/// One of a key's slots, to be given back with `Pool::release`.
#[derive(Debug)]
pub struct Permit {
    key: usize,
}

/// A place in a key's queue, to be presented to `Pool::resume`.
#[derive(Debug)]
pub struct Ticket {
    key: usize,
    deadline: u128,
    id: Option<u64>,
}

/// A request that is not admitted.
#[derive(Debug)]
pub struct Reject {
    pub status: u16,
    pub reason: &'static str,
    /// Seconds that the client should wait, where that is known.
    pub retry_after_s: Option<u64>,
}

/// Why waiting for a key ended without a slot.
#[derive(Debug, Clone, Copy, PartialEq, Eq, Structural)]
pub enum WaitRejected {
    Full,
    Timeout,
}

/// A slot, or a place in the queue for one.
#[derive(Debug)]
pub enum Admission {
    Granted(Permit),
    Queued(Ticket),
}

/// Usage figures beside a key's health. A window that the snapshot does not
/// carry stays absent.
#[derive(Debug, Clone, Copy, PartialEq, Eq, Structural)]
pub struct UsageBrief {
    pub session: Option<Share>,
    pub weekly: Option<Share>,
    /// Tenths of a percent.
    pub session_pct: Option<u32>,
    /// Tenths of a percent.
    pub weekly_pct: Option<u32>,
    pub over_quota: bool,
}

/// What is shown of one key.
#[derive(Debug)]
pub struct KeyInfo {
    pub index: usize,
    pub suffix: String,
    pub state: State,
    pub concurrency: u32,
    pub in_use: u32,
    pub waiters: u32,
    pub cooldown_left_s: Option<u64>,
    pub strikes: u32,
    pub fails: u64,
    pub successes: u64,
    pub last_error: Option<String>,
    /// Usage figures, where they are joined in.
    pub usage: Option<UsageBrief>,
}

// ---------------------------------------------------------------------------
// Views
// ---------------------------------------------------------------------------

impl View for Health {
    type V = HealthView;

    closed spec fn view(&self) -> HealthView {
        HealthView {
            state: self.state,
            until: match self.cooldown_until {
                Some(t) => Some(t as int),
                None => None,
            },
            strikes: self.strikes as int,
            fails: self.fails as int,
            successes: self.successes as int,
            last_error: affinity::opt_chars(self.last_error),
        }
    }
}

impl View for KeyState {
    type V = KeyView;

    closed spec fn view(&self) -> KeyView {
        KeyView {
            concurrency: self.concurrency as int,
            held: self.held as int,
            waiters: self.waiters as int,
            waiter_cap: self.waiter_cap as int,
            health: self.health@,
        }
    }
}

spec fn bit(mask: u64, i: int) -> bool {
    0 <= i < 64 && (mask >> (i as u64)) & 1 == 1
}

impl View for Pool {
    type V = PoolView;

    closed spec fn view(&self) -> PoolView {
        PoolView {
            keys: text::views(self.keys@),
            states: self.states@.map_values(|s: KeyState| s@),
            rr: self.rr as int,
            verbose: self.verbose,
            threshold: self.usage_threshold_x10 as int,
            over: Set::new(|i: int| bit(self.over_quota_mask, i)),
            affinity: self.affinity_enabled,
            pins: self.affinity@,
            pin_cap: self.affinity.capacity(),
        }
    }
}

impl View for KeyInfo {
    type V = InfoView;

    open spec fn view(&self) -> InfoView {
        InfoView {
            index: self.index as int,
            suffix: self.suffix@,
            state: self.state,
            concurrency: self.concurrency as int,
            in_use: self.in_use as int,
            waiters: self.waiters as int,
            cooldown_left_s: match self.cooldown_left_s {
                Some(s) => Some(s as int),
                None => None,
            },
            strikes: self.strikes as int,
            fails: self.fails as int,
            successes: self.successes as int,
            last_error: affinity::opt_chars(self.last_error),
            usage: self.usage,
        }
    }
}

impl View for Permit {
    type V = int;

    /// The key that the slot is on.
    closed spec fn view(&self) -> int {
        self.key as int
    }
}

impl Permit {
    /// The key that the slot is on.
    pub fn key(&self) -> (r: usize)
        ensures
            r == self@,
    {
        self.key
    }
}

impl View for Ticket {
    type V = TicketView;

    closed spec fn view(&self) -> TicketView {
        TicketView { key: self.key as int, deadline: self.deadline as int, id: self.id }
    }
}

impl Pool {
    /// What every pool satisfies.
    pub closed spec fn wf(&self) -> bool {
        &&& pool_ok(self@)
        &&& self.affinity.wf()
    }

    /// What every pool satisfies, over its view.
    pub proof fn lemma_wf(&self)
        requires
            self.wf(),
        ensures
            pool_ok(self@),
    {
    }
}

// ---------------------------------------------------------------------------
// Health and configuration
// ---------------------------------------------------------------------------

impl KeyState {
    /// A key with nothing in flight (at least one slot).
    fn new(concurrency: u32, waiter_cap: u32) -> (r: KeyState)
        ensures
            r@ == fresh_key(concurrency as int, waiter_cap as int),
    {
        KeyState {
            concurrency: if concurrency >= 1 {
                concurrency
            } else {
                1
            },
            held: 0,
            waiters: 0,
            waiter_cap,
            health: Health {
                state: State::Up,
                cooldown_until: None,
                strikes: 0,
                fails: 0,
                successes: 0,
                last_error: None,
            },
        }
    }

    /// How many slots are taken.
    fn in_use(&self) -> (r: u32)
        ensures
            r == self@.held,
    {
        self.held
    }

    /// The state at `now`; a cooldown that has run out ends here.
    fn state(&mut self, now: u64) -> (r: State)
        ensures
            r == state_at(old(self)@, now as int),
            final(self)@ == seen(old(self)@, now as int),
    {
        if self.health.state == State::Cooldown {
            match self.health.cooldown_until {
                Some(t) if t > now => State::Cooldown,
                _ => {
                    self.health.state = State::Up;
                    self.health.cooldown_until = None;
                    State::Up
                },
            }
        } else {
            self.health.state
        }
    }
}

impl Pool {
    /// A pool of the given (secret, concurrency) pairs, each key with room for
    /// `waiter_cap` waiting requests. Quota-aware routing is off, affinity on.
    pub fn new(
        keys_with_concurrency: Vec<(String, u32)>,
        waiter_cap: u32,
        verbose: bool,
    ) -> (r: Pool)
        ensures
            r.wf(),
            r@.keys == keys_with_concurrency@.map_values(|e: (String, u32)| e.0@),
            r@.states == keys_with_concurrency@.map_values(
                |e: (String, u32)| fresh_key(e.1 as int, waiter_cap as int),
            ),
            r@.rr == 0,
            r@.verbose == verbose,
            r@.threshold == 0,
            r@.over == Set::<int>::empty(),
            r@.affinity,
            r@.pins == Seq::<(u64, usize)>::empty(),
            r@.pin_cap == AFFINITY_CAP,
    {
        let mut keys: Vec<String> = Vec::new();
        let mut states: Vec<KeyState> = Vec::new();
        let mut i: usize = 0;
        while i < keys_with_concurrency.len()
            invariant
                i <= keys_with_concurrency@.len(),
                keys@.len() == i,
                states@.len() == i,
                forall|j: int| 0 <= j < i ==> (#[trigger] keys@[j])@ == keys_with_concurrency@[j].0@,
                forall|j: int|
                    0 <= j < i ==> (#[trigger] states@[j])@ == fresh_key(
                        keys_with_concurrency@[j].1 as int,
                        waiter_cap as int,
                    ),
            decreases keys_with_concurrency@.len() - i,
        {
            keys.push(keys_with_concurrency[i].0.clone());
            states.push(KeyState::new(keys_with_concurrency[i].1, waiter_cap));
            i = i + 1;
        }
        let r = Pool {
            keys,
            states,
            rr: 0,
            verbose,
            usage_threshold_x10: 0,
            over_quota_mask: 0,
            affinity_enabled: true,
            affinity: AffinityMap::new(AFFINITY_CAP),
        };
        proof {
            r.affinity.lemma_wf();
            assert forall|i: int| !bit(0, i) by {
                let k = i as u64;
                assert((0u64 >> k) & 1 == 0) by (bit_vector);
            }
            assert(r@.over =~= Set::<int>::empty());
            assert(r@.keys =~= keys_with_concurrency@.map_values(|e: (String, u32)| e.0@));
            assert(r@.states =~= keys_with_concurrency@.map_values(
                |e: (String, u32)| fresh_key(e.1 as int, waiter_cap as int),
            ));
        }
        r
    }

    /// The state of `key` at `now`.
    pub fn state_of(&mut self, key: usize, now: u64) -> (r: State)
        requires
            old(self).wf(),
            key < old(self)@.states.len(),
        ensures
            final(self).wf(),
            r == state_at(old(self)@.states[key as int], now as int),
            final(self)@ == with_key(
                old(self)@,
                key as int,
                seen(old(self)@.states[key as int], now as int),
            ),
    {
        let r = self.states[key].state(now);
        assert(self@ =~= with_key(
            old(self)@,
            key as int,
            seen(old(self)@.states[key as int], now as int),
        ));
        r
    }

    /// The upstream rejected the credential of `key`: it is dead from now on.
    pub fn mark_dead(&mut self, key: usize, reason: &str)
        requires
            old(self).wf(),
            key < old(self)@.states.len(),
            can_fail(old(self)@.states[key as int].health, 1),
        ensures
            final(self).wf(),
            final(self)@ == with_health(
                old(self)@,
                key as int,
                died(old(self)@.states[key as int].health, reason@),
            ),
    {
        assert(self.states@[key as int]@ == self@.states[key as int]);
        self.states[key].health.state = State::Dead;
        self.states[key].health.cooldown_until = None;
        self.states[key].health.strikes = 0;
        self.states[key].health.fails = self.states[key].health.fails + 1;
        self.states[key].health.last_error = Some(reason.to_owned());
        assert(self@ =~= with_health(
            old(self)@,
            key as int,
            died(old(self)@.states[key as int].health, reason@),
        ));
    }

    /// Puts `key` in cooldown for `dur` nanoseconds.
    pub fn mark_cooldown(&mut self, key: usize, dur: u64, reason: &str, now: u64)
        requires
            old(self).wf(),
            key < old(self)@.states.len(),
            can_fail(old(self)@.states[key as int].health, 1),
            now + dur <= u64::MAX,
        ensures
            final(self).wf(),
            final(self)@ == with_health(
                old(self)@,
                key as int,
                cooled(old(self)@.states[key as int].health, now + dur, reason@),
            ),
    {
        assert(self.states@[key as int]@ == self@.states[key as int]);
        if self.states[key].health.state != State::Dead {
            self.states[key].health.state = State::Cooldown;
            self.states[key].health.cooldown_until = Some(now + dur);
        }
        self.states[key].health.last_error = Some(reason.to_owned());
        self.states[key].health.fails = self.states[key].health.fails + 1;
        assert(self@ =~= with_health(
            old(self)@,
            key as int,
            cooled(old(self)@.states[key as int].health, now + dur, reason@),
        ));
    }

    /// Counts one upstream failure of `key`; repeated failures cool it down.
    pub fn mark_strike(&mut self, key: usize, reason: &str, now: u64)
        requires
            old(self).wf(),
            key < old(self)@.states.len(),
            can_fail(
                old(self)@.states[key as int].health,
                if third_strike(old(self)@.states[key as int].health) {
                    2
                } else {
                    1
                },
            ),
            third_strike(old(self)@.states[key as int].health) ==> now + COOLDOWN_429 <= u64::MAX,
        ensures
            final(self).wf(),
            final(self)@ == with_health(
                old(self)@,
                key as int,
                struck(old(self)@.states[key as int].health, now as int, reason@),
            ),
    {
        let ghost h = self@.states[key as int].health;
        assert(self.states@[key as int]@ == self@.states[key as int]);
        let strikes: u32 = self.states[key].health.strikes + 1;
        if strikes >= STRIKES_TO_COOL {
            if self.states[key].health.state != State::Dead {
                self.states[key].health.state = State::Cooldown;
                self.states[key].health.cooldown_until = Some(now + COOLDOWN_429);
            }
            self.states[key].health.last_error = Some(reason.to_owned());
            self.states[key].health.fails = self.states[key].health.fails + 2;
            self.states[key].health.strikes = 0;
        } else {
            self.states[key].health.strikes = strikes;
            self.states[key].health.fails = self.states[key].health.fails + 1;
            self.states[key].health.last_error = Some(reason.to_owned());
        }
        assert(self@ =~= with_health(old(self)@, key as int, struck(h, now as int, reason@)));
    }

    /// Notes how a relayed request ended: a confirmed upstream success clears
    /// the strikes and the cooldown of `key` and breaks ties its way.
    pub fn settle(&mut self, key: usize, ok: bool)
        requires
            old(self).wf(),
            key < old(self)@.states.len(),
            ok ==> can_succeed(old(self)@.states[key as int].health),
        ensures
            final(self).wf(),
            final(self)@ == if ok {
                PoolView {
                    rr: key as int,
                    ..with_health(
                        old(self)@,
                        key as int,
                        succeeded(old(self)@.states[key as int].health),
                    )
                }
            } else {
                old(self)@
            },
    {
        if ok {
            assert(self.states@[key as int]@ == self@.states[key as int]);
            if self.states[key].health.state != State::Dead {
                self.states[key].health.state = State::Up;
            }
            self.states[key].health.cooldown_until = None;
            self.states[key].health.strikes = 0;
            self.states[key].health.successes = self.states[key].health.successes + 1;
            self.rr = key;
            assert(self@ =~= PoolView {
                rr: key as int,
                ..with_health(
                    old(self)@,
                    key as int,
                    succeeded(old(self)@.states[key as int].health),
                )
            });
        }
    }

    // ----- what the pool is -----

    /// How many keys there are.
    pub fn len(&self) -> (r: usize)
        requires
            self.wf(),
        ensures
            r == self@.states.len(),
    {
        self.states.len()
    }

    /// How many keys there are.
    pub fn total_keys(&self) -> (r: usize)
        requires
            self.wf(),
        ensures
            r == self@.states.len(),
    {
        self.states.len()
    }

    /// Whether there is no key.
    pub fn is_empty(&self) -> (r: bool)
        requires
            self.wf(),
        ensures
            r == (self@.states.len() == 0),
    {
        self.states.len() == 0
    }

    /// How many requests the pool may serve at once.
    pub fn total_slots(&self) -> (r: u32)
        requires
            self.wf(),
            slots(self@.states) <= u32::MAX,
        ensures
            r == slots(self@.states),
    {
        let mut sum: u32 = 0;
        let mut i: usize = 0;
        assert(self@.states.take(0) =~= seq![]);
        while i < self.states.len()
            invariant
                self.wf(),
                slots(self@.states) <= u32::MAX,
                i <= self.states@.len(),
                sum == slots(self@.states.take(i as int)),
            decreases self.states@.len() - i,
        {
            proof {
                assert(self@.states.take(i + 1).drop_last() =~= self@.states.take(i as int));
                lemma_slots_grow(self@.states, i + 1);
                assert(self.states@[i as int]@ == self@.states[i as int]);
            }
            sum = sum + self.states[i].concurrency;
            i = i + 1;
        }
        assert(self@.states.take(i as int) =~= self@.states);
        sum
    }

    /// Whether there is room to count `n` failures more of `key`.
    pub fn can_count_failures(&self, key: usize, n: u64) -> (r: bool)
        requires
            self.wf(),
            key < self@.states.len(),
        ensures
            r == can_fail(self@.states[key as int].health, n as int),
    {
        assert(self.states@[key as int]@ == self@.states[key as int]);
        self.states[key].health.fails <= u64::MAX - n
    }

    /// Whether there is room to count a success of `key`.
    pub fn can_count_success(&self, key: usize) -> (r: bool)
        requires
            self.wf(),
            key < self@.states.len(),
        ensures
            r == can_succeed(self@.states[key as int].health),
    {
        assert(self.states@[key as int]@ == self@.states[key as int]);
        self.states[key].health.successes < u64::MAX
    }

    /// Whether the next failure of `key` puts it in cooldown.
    pub fn strikes_out_next(&self, key: usize) -> (r: bool)
        requires
            self.wf(),
            key < self@.states.len(),
        ensures
            r == third_strike(self@.states[key as int].health),
    {
        proof {
            self.lemma_wf();
            assert(self.states@[key as int]@ == self@.states[key as int]);
            assert(key_ok(self@.states[key as int]));
        }
        self.states[key].health.strikes + 1 >= STRIKES_TO_COOL
    }

    /// Whether verbose logging is wanted.
    pub fn verbose(&self) -> (r: bool)
        ensures
            r == self@.verbose,
    {
        self.verbose
    }

    /// The last four characters of the secret of `key`.
    pub fn suffix_of(&self, key: usize) -> (r: String)
        requires
            self.wf(),
            key < self@.states.len(),
        ensures
            r@ == config::suffix_of(self@.keys[key as int]),
    {
        config::suffix(self.keys[key].as_str())
    }

    /// The secret of `key`, for the upstream's authorization header.
    pub fn secret_of(&self, key: usize) -> (r: &str)
        requires
            self.wf(),
            key < self@.states.len(),
        ensures
            r@ == self@.keys[key as int],
    {
        self.keys[key].as_str()
    }

    // ----- quota-aware routing -----

    /// Turns quota-aware routing on with a threshold in whole percent; 0 turns
    /// it off.
    pub fn set_usage_threshold(&mut self, pct: u32)
        requires
            old(self).wf(),
        ensures
            final(self).wf(),
            final(self)@ == (PoolView { threshold: pct * 10, ..old(self)@ }),
            final(self)@ == with_threshold(old(self)@, pct as int),
    {
        self.usage_threshold_x10 = pct as u64 * 10;
        assert(self@ =~= PoolView { threshold: pct * 10, ..old(self)@ });
    }

    /// The threshold in tenths of a percent; 0 is off.
    pub fn usage_threshold_x10(&self) -> (r: u64)
        ensures
            r == self@.threshold,
    {
        self.usage_threshold_x10
    }

    /// Takes in a usage snapshot: from now on, the keys that it shows at or
    /// over the threshold are served last. Key health is not touched.
    pub fn publish_usage(&mut self, snap: &UsageSnapshot)
        requires
            old(self).wf(),
        ensures
            final(self).wf(),
            final(self)@ == (PoolView {
                over: over_threshold(snap.keys@, old(self)@.threshold),
                ..old(self)@
            }),
    {
        let threshold: u64 = self.usage_threshold_x10;
        let mut mask: u64 = 0;
        proof {
            assert forall|i: int| !bit(0, i) by {
                let k = i as u64;
                assert((0u64 >> k) & 1 == 0) by (bit_vector);
            }
        }
        if threshold != 0 {
            let mut i: usize = 0;
            while i < snap.keys.len()
                invariant
                    threshold != 0,
                    i <= snap.keys@.len(),
                    forall|b: int|
                        #[trigger] bit(mask, b) <==> over_threshold(
                            snap.keys@.take(i as int),
                            threshold as int,
                        ).contains(b),
                decreases snap.keys@.len() - i,
            {
                let ghost before = mask;
                let ghost row = snap.keys@[i as int];
                let index: usize = snap.keys[i].index;
                let over = match snap.keys[i].session {
                    Some(session) => session.permille as u64 >= threshold,
                    None => false,
                };
                if index < 64 && over {
                    mask = mask | (1u64 << index);
                }
                proof {
                    let k = index as u64;
                    assert forall|b: int|
                        #[trigger] bit(mask, b) <==> over_threshold(
                            snap.keys@.take(i + 1),
                            threshold as int,
                        ).contains(b) by {
                        if index < 64 && over {
                            lemma_set_bit(before, k, b);
                        }
                        assert(bit(before, b) <==> over_threshold(
                            snap.keys@.take(i as int),
                            threshold as int,
                        ).contains(b));
                        lemma_over_threshold_step(snap.keys@, threshold as int, i as int, b);
                    }
                }
                i = i + 1;
            }
            assert(snap.keys@.take(i as int) =~= snap.keys@);
        }
        self.over_quota_mask = mask;
        assert(self@.over =~= over_threshold(snap.keys@, threshold as int));
    }

    /// Usage figures per row of `snap`, in its order. A row without any figure
    /// has none, and a window that it lacks stays absent.
    pub fn usage_briefs(&self, snap: &UsageSnapshot) -> (r: Vec<Option<UsageBrief>>)
        ensures
            r@ == snap.keys@.map_values(|row: KeyUsage| brief(row, self@.threshold)),
    {
        let mut r: Vec<Option<UsageBrief>> = Vec::new();
        let mut i: usize = 0;
        while i < snap.keys.len()
            invariant
                i <= snap.keys@.len(),
                r@.len() == i,
                forall|j: int| 0 <= j < i ==> r@[j] == brief(snap.keys@[j], self@.threshold),
            decreases snap.keys@.len() - i,
        {
            let row = &snap.keys[i];
            if row.session.is_none() && row.weekly.is_none() {
                r.push(None);
            } else {
                r.push(
                    Some(
                        UsageBrief {
                            session: row.session,
                            weekly: row.weekly,
                            session_pct: match row.session {
                                Some(s) => Some(s.pct_x10),
                                None => None,
                            },
                            weekly_pct: match row.weekly {
                                Some(s) => Some(s.pct_x10),
                                None => None,
                            },
                            over_quota: self.usage_threshold_x10 != 0 && match row.session {
                                Some(s) => s.permille as u64 >= self.usage_threshold_x10,
                                None => false,
                            },
                        },
                    ),
                );
            }
            i = i + 1;
        }
        assert(r@ =~= snap.keys@.map_values(|row: KeyUsage| brief(row, self@.threshold)));
        r
    }

    /// Whether quota-aware routing serves `key` last.
    pub fn is_over_quota(&self, key: usize) -> (r: bool)
        ensures
            r == over_quota(self@, key as int),
    {
        if self.usage_threshold_x10 == 0 {
            return false;
        }
        if key >= 64 {
            return false;
        }
        (self.over_quota_mask >> (key as u64)) & 1 == 1
    }

    // ----- affinity -----

    /// Turns prompt-cache affinity on or off.
    pub fn set_affinity_enabled(&mut self, on: bool)
        requires
            old(self).wf(),
        ensures
            final(self).wf(),
            final(self)@ == (PoolView { affinity: on, ..old(self)@ }),
    {
        self.affinity_enabled = on;
        assert(self@ =~= PoolView { affinity: on, ..old(self)@ });
    }

    /// Whether prompt-cache affinity is on.
    pub fn affinity_enabled(&self) -> (r: bool)
        ensures
            r == self@.affinity,
    {
        self.affinity_enabled
    }

    /// The key that `id` is pinned to, while affinity is on. Its health is not
    /// looked at. The lookup makes the pin the most recent.
    pub fn pinned_key(&mut self, id: u64) -> (r: Option<usize>)
        requires
            old(self).wf(),
        ensures
            final(self).wf(),
            r == pinned_key(old(self)@, id),
            r matches Some(key) ==> key < old(self)@.states.len(),
            final(self)@ == looked_up(old(self)@, id),
    {
        if !self.affinity_enabled {
            return None;
        }
        proof {
            affinity::lemma_position_range(self@.pins, id);
            lemma_touch_keeps_keys(self@.pins, id, self@.states.len() as int);
            affinity::law_lookup_keeps_pins(self@.pins, id, id);
        }
        let r = self.affinity.get(id);
        assert(self@ =~= looked_up(old(self)@, id));
        r
    }

    /// Pins `id` to `key`, unless affinity is off.
    pub fn pin(&mut self, id: u64, key: usize)
        requires
            old(self).wf(),
            key < old(self)@.states.len(),
        ensures
            final(self).wf(),
            final(self)@ == with_pin(old(self)@, id, key),
    {
        if self.affinity_enabled {
            proof {
                lemma_repin_keeps_keys(
                    self@.pins,
                    self@.pin_cap,
                    id,
                    key,
                    self@.states.len() as int,
                );
                affinity::law_pin_is_found(self@.pins, self@.pin_cap, id, key, id);
            }
            self.affinity.put(id, key);
            assert(self@ =~= with_pin(old(self)@, id, key));
        }
    }

    /// Unpins `id` if it is pinned to `key`.
    pub fn unpin(&mut self, id: u64, key: usize)
        requires
            old(self).wf(),
        ensures
            final(self).wf(),
            final(self)@ == (PoolView {
                pins: affinity::unpinned_from(old(self)@.pins, id, key),
                ..old(self)@
            }),
    {
        proof {
            affinity::lemma_position_range(self@.pins, id);
            affinity::law_unpin_needs_current_key(self@.pins, id, key, id);
        }
        self.affinity.remove_if(id, key);
        proof {
            assert(self@ =~= PoolView {
                pins: affinity::unpinned_from(old(self)@.pins, id, key),
                ..old(self)@
            });
            lemma_unpin_keeps_keys(old(self)@.pins, id, self@.states.len() as int);
        }
    }

    /// Whether `id` has a pin that could serve right now: its key is up, not
    /// over quota, and has a free slot.
    pub fn pin_usable(&mut self, id: u64, now: u64) -> (r: bool)
        requires
            old(self).wf(),
        ensures
            final(self).wf(),
            r == pin_serves(old(self)@, id, now as int),
            final(self)@ == match pinned_key(old(self)@, id) {
                Some(key) => with_key(
                    looked_up(old(self)@, id),
                    key as int,
                    seen(old(self)@.states[key as int], now as int),
                ),
                None => looked_up(old(self)@, id),
            },
    {
        let key = match self.pinned_key(id) {
            Some(key) => key,
            None => {
                return false;
            },
        };
        let up = self.state_of(key, now) == State::Up;
        assert(self.states@[key as int]@ == self@.states[key as int]);
        up && !self.is_over_quota(key) && self.states[key].in_use() < self.states[key].concurrency
    }
}

proof fn lemma_set_bit(mask: u64, k: u64, b: int)
    requires
        k < 64,
    ensures
        bit(mask | (1u64 << k), b) <==> (bit(mask, b) || b == k),
{
    if 0 <= b < 64 {
        let i = b as u64;
        assert(((mask | (1u64 << k)) >> i) & 1 == 1 <==> ((mask >> i) & 1 == 1 || i == k))
            by (bit_vector)
            requires
                k < 64,
                i < 64,
        ;
    }
}

// ---------------------------------------------------------------------------
// Observation
// ---------------------------------------------------------------------------

/// A copy of an optional string.
fn copy_opt(s: &Option<String>) -> (r: Option<String>)
    ensures
        r == *s,
{
    match s {
        Some(s) => Some(s.clone()),
        None => None,
    }
}

impl Pool {
    /// Whether some key is up at `now`.
    pub fn healthy_any(&mut self, now: u64) -> (r: bool)
        requires
            old(self).wf(),
        ensures
            final(self).wf(),
            r == any_up(all_seen(old(self)@, now as int)),
            final(self)@ == seen_until_up(old(self)@, now as int),
    {
        let ghost p = self@;
        let ghost n = now as int;
        let mut i: usize = 0;
        while i < self.states.len()
            invariant
                self.wf(),
                p == old(self)@,
                n == now,
                i <= self.states@.len(),
                self@.states.len() == p.states.len(),
                self@ == (PoolView { states: self@.states, ..p }),
                none_up_before(p, i as int, n),
                forall|j: int| 0 <= j < i ==> #[trigger] self@.states[j] == seen(p.states[j], n),
                forall|j: int|
                    i <= j < p.states.len() ==> #[trigger] self@.states[j] == p.states[j],
            decreases self.states@.len() - i,
        {
            if self.state_of(i, now) == State::Up {
                proof {
                    assert forall|j: int| i < j < p.states.len() implies !none_up_before(
                        p,
                        j,
                        n,
                    ) by {
                        assert(state_at(p.states[i as int], n) == State::Up);
                    }
                    assert(self@ =~= seen_until_up(p, n));
                    assert(is_up(all_seen(p, n), i as int));
                }
                return true;
            }
            i = i + 1;
        }
        assert(self@ =~= seen_until_up(p, n));
        assert forall|j: int| 0 <= j < p.states.len() implies !#[trigger] is_up(
            all_seen(p, n),
            j,
        ) by {
            assert(state_at(p.states[j], n) != State::Up);
        }
        false
    }

    /// Looks at every key at `now`: cooldowns that have run out end.
    fn observe(&mut self, now: u64)
        requires
            old(self).wf(),
        ensures
            final(self).wf(),
            final(self)@ == all_seen(old(self)@, now as int),
    {
        let ghost p = self@;
        let ghost n = now as int;
        let mut i: usize = 0;
        while i < self.states.len()
            invariant
                self.wf(),
                p == old(self)@,
                n == now,
                i <= self.states@.len(),
                self@.states.len() == p.states.len(),
                self@ == (PoolView { states: self@.states, ..p }),
                forall|j: int| 0 <= j < i ==> #[trigger] self@.states[j] == seen(p.states[j], n),
                forall|j: int|
                    i <= j < p.states.len() ==> #[trigger] self@.states[j] == p.states[j],
            decreases self.states@.len() - i,
        {
            self.state_of(i, now);
            i = i + 1;
        }
        assert(self@ =~= all_seen(p, n));
    }

    /// The time until the first of the cooldowns under way ends.
    pub fn next_retry_in(&self, now: u64) -> (r: Option<u64>)
        requires
            self.wf(),
        ensures
            match r {
                Some(d) => soonest(self@.states) is Some && d == time_to(
                    soonest(self@.states)->0,
                    now as int,
                ),
                None => soonest(self@.states) is None,
            },
    {
        let mut best: Option<u64> = None;
        let mut i: usize = 0;
        assert(self@.states.take(0) =~= seq![]);
        while i < self.states.len()
            invariant
                self.wf(),
                i <= self.states@.len(),
                match best {
                    Some(t) => soonest(self@.states.take(i as int)) == Some(t as int),
                    None => soonest(self@.states.take(i as int)) is None,
                },
            decreases self.states@.len() - i,
        {
            proof {
                assert(self@.states.take(i + 1).drop_last() =~= self@.states.take(i as int));
                assert(self.states@[i as int]@ == self@.states[i as int]);
            }
            if self.states[i].health.state == State::Cooldown {
                if let Some(t) = self.states[i].health.cooldown_until {
                    best = match best {
                        Some(b) if b <= t => Some(b),
                        _ => Some(t),
                    };
                }
            }
            i = i + 1;
        }
        assert(self@.states.take(i as int) =~= self@.states);
        match best {
            Some(t) => if t > now {
                Some(t - now)
            } else {
                Some(0)
            },
            None => None,
        }
    }

    /// What there is to show of each key at `now`, in order.
    pub fn info(&mut self, now: u64) -> (r: Vec<KeyInfo>)
        requires
            old(self).wf(),
        ensures
            final(self).wf(),
            final(self)@ == all_seen(old(self)@, now as int),
            r@.map_values(|info: KeyInfo| info@) == report(old(self)@, now as int),
    {
        self.observe(now);
        let ghost p = self@;
        let mut r: Vec<KeyInfo> = Vec::new();
        let mut i: usize = 0;
        while i < self.states.len()
            invariant
                self.wf(),
                self@ == p,
                p == all_seen(old(self)@, now as int),
                old(self).wf(),
                i <= self.states@.len(),
                r@.len() == i,
                forall|j: int| 0 <= j < i ==> (#[trigger] r@[j])@ == shown(p, j, now as int),
            decreases self.states@.len() - i,
        {
            proof {
                lemma_seen_ok(old(self)@.states[i as int], now as int);
                assert(self.states@[i as int]@ == p.states[i as int]);
                assert(key_ok(p.states[i as int]));
            }
            let suffix = self.suffix_of(i);
            let st = &self.states[i];
            let cooldown_left_s: Option<u64> = match st.health.cooldown_until {
                Some(t) => Some((t - now) / 1_000_000_000 + 1),
                None => None,
            };
            r.push(
                KeyInfo {
                    index: i,
                    suffix,
                    state: st.health.state,
                    concurrency: st.concurrency,
                    in_use: st.held,
                    waiters: st.waiters,
                    cooldown_left_s,
                    strikes: st.health.strikes,
                    fails: st.health.fails,
                    successes: st.health.successes,
                    last_error: copy_opt(&st.health.last_error),
                    usage: None,
                },
            );
            assert(r@[i as int]@ == shown(p, i as int, now as int));
            i = i + 1;
        }
        assert(r@.map_values(|info: KeyInfo| info@) =~= report(old(self)@, now as int));
        r
    }

    /// `info` with the usage figures of `snap` beside each key. They are
    /// joined by position: a key that the snapshot lacks has none.
    pub fn info_with_usage(&mut self, snap: &UsageSnapshot, now: u64) -> (r: Vec<
        (KeyInfo, Option<UsageBrief>),
    >)
        requires
            old(self).wf(),
        ensures
            final(self).wf(),
            final(self)@ == all_seen(old(self)@, now as int),
            r@.map_values(|row: (KeyInfo, Option<UsageBrief>)| row.0@) == report(
                old(self)@,
                now as int,
            ),
            forall|i: int|
                0 <= i < r@.len() ==> (#[trigger] r@[i]).1 == if i < snap.keys@.len() {
                    brief(snap.keys@[i], old(self)@.threshold)
                } else {
                    None
                },
    {
        let briefs = self.usage_briefs(snap);
        let infos = self.info(now);
        let ghost all = infos@;
        let mut r: Vec<(KeyInfo, Option<UsageBrief>)> = Vec::new();
        for info in it: infos
            invariant
                it.seq() == all,
                r@.len() == it.index(),
                briefs@ == snap.keys@.map_values(
                    |row: KeyUsage| brief(row, old(self)@.threshold),
                ),
                forall|j: int|
                    #![trigger r@[j]]
                    0 <= j < r@.len() ==> r@[j].0 == all[j] && r@[j].1 == (if j
                        < snap.keys@.len() {
                        brief(snap.keys@[j], old(self)@.threshold)
                    } else {
                        None
                    }),
        {
            let i: usize = r.len();
            let usage = if i < briefs.len() {
                briefs[i]
            } else {
                None
            };
            r.push((info, usage));
        }
        r
    }
}

// ---------------------------------------------------------------------------
// Selection
// ---------------------------------------------------------------------------

impl Pool {
    /// Whether key `i` is preferred to key `j`.
    fn prefers(&self, tried: &Vec<usize>, i: usize, j: usize) -> (r: bool)
        requires
            self.wf(),
            i < self@.states.len(),
            j < self@.states.len(),
        ensures
            r == preferred(self@, tried@, i as int, j as int),
    {
        let tried_i = contains(tried, i);
        let tried_j = contains(tried, j);
        if tried_i != tried_j {
            return tried_j;
        }
        let over_i = self.is_over_quota(i);
        let over_j = self.is_over_quota(j);
        if over_i != over_j {
            return over_j;
        }
        let load_i: u64 = self.load_of(i);
        let load_j: u64 = self.load_of(j);
        if load_i != load_j {
            return load_i < load_j;
        }
        self.turn_of(i) < self.turn_of(j)
    }

    /// How busy key `i` is, in 1024ths of its slots.
    fn load_of(&self, i: usize) -> (r: u64)
        requires
            self.wf(),
            i < self@.states.len(),
        ensures
            r == load(self@, i as int),
    {
        let st = &self.states[i];
        assert(st@ == self@.states[i as int]);
        (st.held as u64 * 1024) / (st.concurrency as u64)
    }

    /// The turn of key `i` among equals.
    fn turn_of(&self, i: usize) -> (r: usize)
        requires
            self.wf(),
            i < self@.states.len(),
        ensures
            r == turn(self@, i as int),
    {
        let n: usize = self.states.len();
        if i < n - self.rr {
            i + self.rr
        } else {
            i - (n - self.rr)
        }
    }

    /// The keys that are up, the preferred first.
    fn ranking(&self, tried: &Vec<usize>) -> (r: Vec<usize>)
        requires
            self.wf(),
        ensures
            is_ranking(self@, tried@, r@),
    {
        let ghost p = self@;
        let mut r: Vec<usize> = Vec::new();
        let mut i: usize = 0;
        while i < self.states.len()
            invariant
                self.wf(),
                p == self@,
                i <= self.states@.len(),
                forall|a: int|
                    0 <= a < r@.len() ==> (#[trigger] r@[a]) < i && is_up(p, r@[a] as int),
                forall|k: int| 0 <= k < i && #[trigger] is_up(p, k) ==> r@.contains(k as usize),
                forall|a: int, b: int|
                    0 <= a < b < r@.len() ==> preferred(
                        p,
                        tried@,
                        #[trigger] r@[a] as int,
                        #[trigger] r@[b] as int,
                    ),
            decreases self.states@.len() - i,
        {
            assert(self.states@[i as int]@ == p.states[i as int]);
            if self.states[i].health.state == State::Up {
                let mut at: usize = 0;
                while at < r.len() && self.prefers(tried, r[at], i)
                    invariant
                        self.wf(),
                        p == self@,
                        i < self.states@.len(),
                        at <= r@.len(),
                        forall|a: int| 0 <= a < r@.len() ==> (#[trigger] r@[a]) < i,
                        forall|a: int|
                            0 <= a < at ==> preferred(p, tried@, #[trigger] r@[a] as int, i as int),
                    decreases r@.len() - at,
                {
                    at = at + 1;
                }
                let ghost before = r@;
                r.insert(at, i);
                proof {
                    lemma_insert_keeps_ranking(p, tried@, before, at as int, i);
                    assert forall|k: int| 0 <= k < i + 1 && #[trigger] is_up(p, k) implies r@.contains(
                        k as usize,
                    ) by {
                        if k == i {
                            assert(r@[at as int] == i);
                        } else {
                            let a = choose|a: int| 0 <= a < before.len() && before[a] == k as usize;
                            if a < at {
                                assert(r@[a] == before[a]);
                            } else {
                                assert(r@[a + 1] == before[a]);
                            }
                        }
                    }
                }
            }
            i = i + 1;
        }
        r
    }

    /// The keys that may serve at `now`, in order of preference: keys over
    /// quota behind the others, the less loaded first, ties broken round the
    /// keys. A key over quota is demoted, never excluded.
    pub fn candidates(&mut self, now: u64) -> (r: Vec<usize>)
        requires
            old(self).wf(),
        ensures
            final(self).wf(),
            final(self)@ == all_seen(old(self)@, now as int),
            is_ranking(final(self)@, seq![], r@),
    {
        self.observe(now);
        let none: Vec<usize> = Vec::new();
        assert(none@ =~= seq![]);
        self.ranking(&none)
    }
}

/// Whether `key` is among `keys`.
fn contains(keys: &Vec<usize>, key: usize) -> (r: bool)
    ensures
        r == is_tried(keys@, key as int),
{
    let mut i: usize = 0;
    while i < keys.len()
        invariant
            i <= keys@.len(),
            forall|j: int| 0 <= j < i ==> keys@[j] != key,
        decreases keys@.len() - i,
    {
        if keys[i] == key {
            return true;
        }
        i = i + 1;
    }
    false
}

// ---------------------------------------------------------------------------
// Admission
// ---------------------------------------------------------------------------

impl Ticket {
    /// How long the holder may sleep at `now` before it asks again.
    pub fn pause(&self, now: u64) -> (r: u64)
        ensures
            r == pause_of(self@, now as int),
    {
        if self.deadline <= now as u128 {
            0
        } else if self.deadline - (now as u128) < WAIT_CHUNK as u128 {
            (self.deadline - now as u128) as u64
        } else {
            WAIT_CHUNK
        }
    }
}

impl Pool {
    /// Takes a slot of `key`, if one is free.
    pub fn try_acquire(&mut self, key: usize) -> (r: Option<Permit>)
        requires
            old(self).wf(),
            key < old(self)@.states.len(),
        ensures
            final(self).wf(),
            match r {
                Some(permit) => has_room(old(self)@, key as int) && permit@ == key && final(self)@
                    == taken(old(self)@, key as int),
                None => !has_room(old(self)@, key as int) && final(self)@ == old(self)@,
            },
    {
        assert(self.states@[key as int]@ == self@.states[key as int]);
        if self.states[key].held < self.states[key].concurrency {
            self.states[key].held = self.states[key].held + 1;
            assert(self@ =~= taken(old(self)@, key as int));
            Some(Permit { key })
        } else {
            None
        }
    }

    /// Gives a slot back.
    pub fn release(&mut self, permit: Permit)
        requires
            old(self).wf(),
            permit@ < old(self)@.states.len(),
        ensures
            final(self).wf(),
            final(self)@ == freed(old(self)@, permit@),
    {
        let key: usize = permit.key;
        assert(self.states@[key as int]@ == self@.states[key as int]);
        if self.states[key].held > 0 {
            self.states[key].held = self.states[key].held - 1;
        }
        assert(self@ =~= freed(old(self)@, key as int));
    }

    /// Asks at `now` for a slot of `key`, and waits for one at most `timeout`
    /// nanoseconds. Nobody waits where the queue is full.
    pub fn acquire_on(&mut self, key: usize, timeout: u64, now: u64) -> (r: Result<
        Admission,
        WaitRejected,
    >)
        requires
            old(self).wf(),
            key < old(self)@.states.len(),
        ensures
            final(self).wf(),
            r == Err::<Admission, WaitRejected>(WaitRejected::Full) <==> queue_full(
                old(self)@,
                key as int,
            ),
            r == Err::<Admission, WaitRejected>(WaitRejected::Timeout) <==> !queue_full(
                old(self)@,
                key as int,
            ) && !has_room(old(self)@, key as int) && timeout == 0,
            final(self)@ == waited(old(self)@, key as int, timeout as int, None, now as int).0,
            r is Ok ==> outcome(Ok(r->Ok_0)) == waited(
                old(self)@,
                key as int,
                timeout as int,
                None,
                now as int,
            ).1,
    {
        assert(self.states@[key as int]@ == self@.states[key as int]);
        if self.states[key].waiters >= self.states[key].waiter_cap {
            return Err(WaitRejected::Full);
        }
        if let Some(permit) = self.try_acquire(key) {
            return Ok(Admission::Granted(permit));
        }
        if timeout == 0 {
            return Err(WaitRejected::Timeout);
        }
        self.states[key].waiters = self.states[key].waiters + 1;
        assert(self@ =~= joined(old(self)@, key as int));
        Ok(Admission::Queued(Ticket { key, deadline: now as u128 + timeout as u128, id: None }))
    }

    /// Admits one request at `now`: the preferred key with a free slot, or a
    /// place in the queue of the preferred key for at most `timeout`
    /// nanoseconds. No key's health changes, but for cooldowns that have run
    /// out.
    pub fn admit_one(&mut self, timeout: u64, now: u64) -> (r: Result<Admission, Reject>)
        requires
            old(self).wf(),
        ensures
            final(self).wf(),
            (final(self)@, outcome(r)) == admitted(
                old(self)@,
                seq![],
                timeout as int,
                None,
                now as int,
            ),
    {
        let none: Vec<usize> = Vec::new();
        assert(none@ =~= seq![]);
        self.admit_avoiding(&none, timeout, None, now)
    }

    /// `admit_one` for a request that has been on the keys `tried`: those come
    /// last. A ticket carries `id`.
    fn admit_avoiding(&mut self, tried: &Vec<usize>, timeout: u64, id: Option<u64>, now: u64) -> (r:
        Result<Admission, Reject>)
        requires
            old(self).wf(),
        ensures
            final(self).wf(),
            (final(self)@, outcome(r)) == admitted(
                old(self)@,
                tried@,
                timeout as int,
                id,
                now as int,
            ),
    {
        self.observe(now);
        let ghost q = self@;
        if self.states.len() == 0 {
            return Err(Reject { status: 503, reason: NO_KEYS, retry_after_s: None });
        }
        if self.all_keys_dead() {
            return Err(Reject { status: 403, reason: ALL_DEAD, retry_after_s: None });
        }
        let cands = self.ranking(tried);
        if cands.len() == 0 {
            proof {
                assert forall|k: int| 0 <= k < q.states.len() implies !#[trigger] is_up(q, k) by {
                    assert(!cands@.contains(k as usize));
                }
                let i = choose|i: int|
                    0 <= i < q.states.len() && (#[trigger] q.states[i]).health.state
                        != State::Dead;
                assert(!is_up(q, i));
                assert(key_ok(q.states[i]));
                lemma_soonest(q.states, i);
            }
            let secs: u64 = match self.next_retry_in(now) {
                Some(d) => if d / NANOS_PER_SEC >= 1 {
                    d / NANOS_PER_SEC
                } else {
                    1
                },
                None => 2,
            };
            return Err(Reject { status: 429, reason: ALL_COOLING, retry_after_s: Some(secs) });
        }
        assert(is_up(q, cands@[0] as int));
        let mut i: usize = 0;
        while i < cands.len()
            invariant
                self.wf(),
                self@ == q,
                q == all_seen(old(self)@, now as int),
                q.states.len() > 0,
                !all_dead(q),
                any_up(q),
                is_ranking(q, tried@, cands@),
                i <= cands@.len(),
                forall|j: int| 0 <= j < i ==> !has_room(q, #[trigger] cands@[j] as int),
            decreases cands@.len() - i,
        {
            let key: usize = cands[i];
            if let Some(permit) = self.try_acquire(key) {
                proof {
                    lemma_first_leads(q, tried@, cands@, true, i as int);
                    assert(eligible(q, true, key as int));
                }
                return Ok(Admission::Granted(permit));
            }
            i = i + 1;
        }
        let key: usize = cands[0];
        proof {
            lemma_first_leads(q, tried@, cands@, false, 0);
            assert forall|k: int| !#[trigger] eligible(q, true, k) by {
                if eligible(q, true, k) {
                    let j = choose|j: int| 0 <= j < cands@.len() && cands@[j] == k as usize;
                    assert(!has_room(q, cands@[j] as int));
                }
            }
        }
        match self.acquire_on(key, timeout, now) {
            Ok(Admission::Granted(permit)) => Ok(Admission::Granted(permit)),
            Ok(Admission::Queued(ticket)) => Ok(
                Admission::Queued(Ticket { key: ticket.key, deadline: ticket.deadline, id }),
            ),
            Err(WaitRejected::Full) => Err(
                Reject { status: 429, reason: QUEUE_FULL, retry_after_s: Some(2) },
            ),
            Err(WaitRejected::Timeout) => Err(
                Reject { status: 429, reason: QUEUED_TOO_LONG, retry_after_s: Some(1) },
            ),
        }
    }

    /// Whether every key is dead.
    fn all_keys_dead(&self) -> (r: bool)
        requires
            self.wf(),
        ensures
            r == all_dead(self@),
    {
        let mut i: usize = 0;
        while i < self.states.len()
            invariant
                self.wf(),
                i <= self.states@.len(),
                forall|j: int|
                    0 <= j < i ==> (#[trigger] self@.states[j]).health.state == State::Dead,
            decreases self.states@.len() - i,
        {
            assert(self.states@[i as int]@ == self@.states[i as int]);
            if self.states[i].health.state != State::Dead {
                return false;
            }
            i = i + 1;
        }
        true
    }
}

impl Pool {
    /// Admission with affinity at `now`: the key that `id` is pinned to, if it
    /// is up, not over quota and has a free slot, else as `admit_one`. Nobody
    /// waits for a pinned key. The key that is granted becomes the pin at once.
    pub fn admit_affine(&mut self, timeout: u64, id: Option<u64>, now: u64) -> (r: Result<
        Admission,
        Reject,
    >)
        requires
            old(self).wf(),
        ensures
            final(self).wf(),
            (final(self)@, outcome(r)) == admitted_affine(
                old(self)@,
                seq![],
                timeout as int,
                id,
                now as int,
            ),
    {
        let none: Vec<usize> = Vec::new();
        assert(none@ =~= seq![]);
        self.admit_affine_avoiding(&none, timeout, id, now).0
    }

    /// `admit_affine` for a request that has been on the keys `tried`: those
    /// come last, and a pin to one of them does not count. Says besides whether
    /// a pin decided.
    pub fn admit_affine_avoiding(
        &mut self,
        tried: &Vec<usize>,
        timeout: u64,
        id: Option<u64>,
        now: u64,
    ) -> (r: (Result<Admission, Reject>, bool))
        requires
            old(self).wf(),
        ensures
            final(self).wf(),
            (final(self)@, outcome(r.0)) == admitted_affine(
                old(self)@,
                tried@,
                timeout as int,
                id,
                now as int,
            ),
            r.1 == (id is Some && pin_serves_anew(old(self)@, tried@, id->0, now as int)),
    {
        let ghost p = self@;
        if let Some(i) = id {
            let ghost q = looked_up(p, i);
            if let Some(key) = self.pinned_key(i) {
                let up = self.state_of(key, now) == State::Up;
                proof {
                    lemma_seen_again(q, key as int, now as int);
                }
                if up && !self.is_over_quota(key) && !contains(tried, key) {
                    if let Some(permit) = self.try_acquire(key) {
                        self.pin(i, key);
                        return (Ok(Admission::Granted(permit)), true);
                    }
                }
            }
        }
        let r = self.admit_avoiding(tried, timeout, id, now);
        if let Some(i) = id {
            if let Ok(Admission::Granted(permit)) = &r {
                proof {
                    law_admission(looked_up(p, i), tried@, timeout as int, id, now as int);
                }
                self.pin(i, permit.key);
            }
        }
        (r, false)
    }

    /// A waiting request asks again at `now`: it gets a slot if one is free,
    /// gives up at its deadline, and waits on otherwise.
    pub fn resume(&mut self, ticket: Ticket, now: u64) -> (r: Result<Admission, Reject>)
        requires
            old(self).wf(),
            ticket@.key < old(self)@.states.len(),
        ensures
            final(self).wf(),
            (final(self)@, outcome(r)) == resumed(old(self)@, ticket@, now as int),
    {
        let key: usize = ticket.key;
        if let Some(permit) = self.try_acquire(key) {
            self.part(key);
            if let Some(id) = ticket.id {
                self.pin(id, key);
            }
            return Ok(Admission::Granted(permit));
        }
        if now as u128 >= ticket.deadline {
            self.part(key);
            return Err(Reject { status: 429, reason: QUEUED_TOO_LONG, retry_after_s: Some(1) });
        }
        Ok(Admission::Queued(ticket))
    }

    /// Gives a place in a queue back.
    pub fn leave(&mut self, ticket: Ticket)
        requires
            old(self).wf(),
            ticket@.key < old(self)@.states.len(),
        ensures
            final(self).wf(),
            final(self)@ == parted(old(self)@, ticket@.key),
    {
        self.part(ticket.key);
    }

    /// One request fewer waits for `key`.
    fn part(&mut self, key: usize)
        requires
            old(self).wf(),
            key < old(self)@.states.len(),
        ensures
            final(self).wf(),
            final(self)@ == parted(old(self)@, key as int),
    {
        assert(self.states@[key as int]@ == self@.states[key as int]);
        if self.states[key].waiters > 0 {
            self.states[key].waiters = self.states[key].waiters - 1;
        }
        assert(self@ =~= parted(old(self)@, key as int));
    }
}

} // verus!
