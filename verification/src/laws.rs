//! What holds of every pool, and of every history of one.

use vstd::prelude::*;
use vstd::string::*;

use crate::affinity;
use crate::config;
use crate::model::{
    admitted, admitted_affine, alike, all_dead, all_seen, any_up, brief, cooled, died, earlier,
    eligible, freed, fresh_key, has_room, is_ranking, is_tried, is_up, joined, key_ok, leader,
    leads, load, looked_up, over_quota, over_threshold, parted, pause_of, pin_serves_anew,
    pinned_key, pool_ok, preferred, queue_full, refreshed, report, resumed, seen, seen_until_up,
    slots, some_free, soonest, state_at, struck, succeeded, taken, time_to, turn, waited, with_key,
    with_threshold, HealthView, KeyView, Outcome, PoolView, TicketView,
};
use crate::pool::{
    Admission, State, AFFINITY_CAP, ALL_COOLING, ALL_DEAD, COOLDOWN_429, NO_KEYS, QUEUED_TOO_LONG,
    QUEUE_FULL, STRIKES_TO_COOL, WAIT_CHUNK,
};
use crate::usage::{at_threshold, KeyUsage};

verus! {

// ---------------------------------------------------------------------------
// Health
// ---------------------------------------------------------------------------

pub(crate) proof fn lemma_seen_ok(k: KeyView, now: int)
    requires
        key_ok(k),
    ensures
        key_ok(seen(k, now)),
        seen(seen(k, now), now) == seen(k, now),
        seen(k, now).health.until matches Some(t) ==> t > now,
{
}

pub(crate) proof fn lemma_all_seen_ok(p: PoolView, now: int)
    requires
        pool_ok(p),
    ensures
        pool_ok(all_seen(p, now)),
{
    assert forall|i: int| 0 <= i < p.states.len() implies key_ok(
        #[trigger] all_seen(p, now).states[i],
    ) by {
        lemma_seen_ok(p.states[i], now);
    }
}

pub(crate) proof fn lemma_seen_again(p: PoolView, key: int, now: int)
    requires
        0 <= key < p.states.len(),
    ensures
        all_seen(with_key(p, key, seen(p.states[key], now)), now) == all_seen(p, now),
{
    let q = with_key(p, key, seen(p.states[key], now));
    assert(all_seen(q, now).states =~= all_seen(p, now).states);
}

pub(crate) proof fn lemma_soonest(states: Seq<KeyView>, i: int)
    requires
        0 <= i < states.len(),
        states[i].health.state == State::Cooldown,
        states[i].health.until is Some,
    ensures
        soonest(states) is Some,
    decreases states.len(),
{
    if i < states.len() - 1 {
        lemma_soonest(states.drop_last(), i);
    }
}

/// A dead key stays dead: no failure, success or passing of time changes it.
pub proof fn law_dead_stays_dead(h: HealthView, now: int, until: int, reason: Seq<char>)
    requires
        h.state == State::Dead,
    ensures
        refreshed(h, now).state == State::Dead,
        died(h, reason).state == State::Dead,
        cooled(h, until, reason).state == State::Dead,
        struck(h, now, reason).state == State::Dead,
        succeeded(h).state == State::Dead,
{
}

/// Failures in a row put a key that is up in cooldown at the third, for the
/// default time, and start the count over; fewer leave it up.
pub proof fn law_three_strikes_cool(
    h: HealthView,
    t1: int,
    t2: int,
    t3: int,
    r1: Seq<char>,
    r2: Seq<char>,
    r3: Seq<char>,
)
    requires
        h.state == State::Up,
        h.strikes == 0,
    ensures
        struck(h, t1, r1).state == State::Up,
        struck(struck(h, t1, r1), t2, r2).state == State::Up,
        struck(struck(h, t1, r1), t2, r2).strikes == 2,
        ({
            let third = struck(struck(struck(h, t1, r1), t2, r2), t3, r3);
            &&& third.state == State::Cooldown
            &&& third.until == Some(t3 + COOLDOWN_429)
            &&& third.strikes == 0
        }),
{
}

/// A success in between starts the count of failures over.
pub proof fn law_success_resets_strikes(h: HealthView, now: int, reason: Seq<char>)
    requires
        h.state != State::Dead,
    ensures
        succeeded(h).state == State::Up,
        succeeded(h).strikes == 0,
        struck(succeeded(h), now, reason).state == State::Up,
        struck(succeeded(h), now, reason).strikes == 1,
{
}

/// A cooldown holds until its end, and no longer.
pub proof fn law_cooldown_ends(h: HealthView, until: int, reason: Seq<char>, now: int)
    requires
        h.state != State::Dead,
    ensures
        refreshed(cooled(h, until, reason), now).state == (if now < until {
            State::Cooldown
        } else {
            State::Up
        }),
{
}

// ---------------------------------------------------------------------------
// Usage and pins
// ---------------------------------------------------------------------------

pub(crate) proof fn lemma_slots_grow(states: Seq<KeyView>, n: int)
    requires
        0 <= n <= states.len(),
        forall|i: int| 0 <= i < states.len() ==> key_ok(#[trigger] states[i]),
    ensures
        slots(states.take(n)) <= slots(states),
    decreases states.len() - n,
{
    if n < states.len() {
        lemma_slots_grow(states, n + 1);
        assert(states.take(n + 1).drop_last() =~= states.take(n));
        assert(states.take(n + 1).last() == states[n]);
    } else {
        assert(states.take(n) =~= states);
    }
}

pub(crate) proof fn lemma_over_threshold_step(rows: Seq<KeyUsage>, threshold: int, n: int, b: int)
    requires
        0 <= n < rows.len(),
        threshold != 0,
    ensures
        over_threshold(rows.take(n + 1), threshold).contains(b) <==> (over_threshold(
            rows.take(n),
            threshold,
        ).contains(b) || (b < 64 && rows[n].index == b && at_threshold(rows[n].session, threshold))),
{
    let some = rows.take(n);
    let more = rows.take(n + 1);
    if over_threshold(more, threshold).contains(b) {
        let j = choose|j: int|
            0 <= j < more.len() && (#[trigger] more[j]).index == b && at_threshold(
                more[j].session,
                threshold,
            );
        if j < n {
            assert(some[j] == more[j]);
        }
    }
    if over_threshold(some, threshold).contains(b) {
        let j = choose|j: int|
            0 <= j < some.len() && (#[trigger] some[j]).index == b && at_threshold(
                some[j].session,
                threshold,
            );
        assert(more[j] == some[j]);
    }
    assert(more[n] == rows[n]);
}

/// With quota-aware routing off, publishing usage demotes nobody.
pub proof fn law_no_threshold_no_demotion(rows: Seq<KeyUsage>, key: int)
    ensures
        !over_threshold(rows, 0).contains(key),
{
}

/// Once quota-aware routing is off, no key is over quota, whatever was
/// published before, and the order of the keys is the one without any.
pub proof fn law_threshold_off_restores_order(
    p: PoolView,
    tried: Seq<usize>,
    i: int,
    j: int,
)
    requires
        p.threshold == 0,
    ensures
        !over_quota(p, i),
        preferred(p, tried, i, j) == preferred(
            PoolView { over: Set::empty(), ..p },
            tried,
            i,
            j,
        ),
{
}

pub open spec fn keys_below(pins: Seq<(u64, usize)>, n: int) -> bool {
    forall|i: int| 0 <= i < pins.len() ==> (#[trigger] pins[i]).1 < n
}

pub(crate) proof fn lemma_unpin_keeps_keys(pins: Seq<(u64, usize)>, id: u64, n: int)
    requires
        keys_below(pins, n),
    ensures
        keys_below(affinity::unpinned(pins, id), n),
{
    affinity::lemma_position_range(pins, id);
    let at = affinity::position(pins, id);
    let rest = affinity::unpinned(pins, id);
    assert forall|i: int| 0 <= i < rest.len() implies (#[trigger] rest[i]).1 < n by {
        if at >= 0 && i >= at {
            assert(rest[i] == pins[i + 1]);
        } else {
            assert(rest[i] == pins[i]);
        }
    }
}

pub(crate) proof fn lemma_touch_keeps_keys(pins: Seq<(u64, usize)>, id: u64, n: int)
    requires
        keys_below(pins, n),
    ensures
        keys_below(affinity::touched(pins, id), n),
{
    lemma_unpin_keeps_keys(pins, id, n);
    affinity::lemma_position_range(pins, id);
}

pub(crate) proof fn lemma_repin_keeps_keys(
    pins: Seq<(u64, usize)>,
    cap: nat,
    id: u64,
    key: usize,
    n: int,
)
    requires
        keys_below(pins, n),
        key < n,
        pins.len() <= cap,
        1 <= cap,
    ensures
        keys_below(affinity::repinned(pins, cap, id, key), n),
{
    lemma_unpin_keeps_keys(pins, id, n);
    affinity::lemma_position_range(pins, id);
}

pub(crate) proof fn lemma_lookup_ok(p: PoolView, id: Option<u64>)
    requires
        pool_ok(p),
    ensures
        id matches Some(i) ==> pool_ok(looked_up(p, i)),
        forall|i: u64|
            (#[trigger] pinned_key(p, i)) matches Some(key) ==> key < p.states.len(),
{
    if let Some(i) = id {
        lemma_touch_keeps_keys(p.pins, i, p.states.len() as int);
        affinity::law_lookup_keeps_pins(p.pins, i, i);
    }
    assert forall|i: u64| (#[trigger] pinned_key(p, i)) is Some implies pinned_key(p, i)->0
        < p.states.len() by {
        affinity::lemma_position_range(p.pins, i);
    }
}

// ---------------------------------------------------------------------------
// Reports
// ---------------------------------------------------------------------------

/// A report shows no more of a key than its suffix: pools that differ in
/// nothing but secrets that end alike give the same report.
pub proof fn law_report_shows_only_suffixes(p: PoolView, q: PoolView, now: int)
    requires
        pool_ok(p),
        alike(p, q),
    ensures
        report(p, now) == report(q, now),
{
    assert(report(p, now) =~= report(q, now));
}

/// Admission does not look at secrets.
pub proof fn law_admission_ignores_secrets(
    p: PoolView,
    q: PoolView,
    tried: Seq<usize>,
    timeout: int,
    id: Option<u64>,
    now: int,
)
    requires
        pool_ok(p),
        alike(p, q),
    ensures
        admitted_affine(p, tried, timeout, id, now).1 == admitted_affine(
            q,
            tried,
            timeout,
            id,
            now,
        ).1,
        alike(
            admitted_affine(p, tried, timeout, id, now).0,
            admitted_affine(q, tried, timeout, id, now).0,
        ),
{
    lemma_lookup_ok(p, id);
    lemma_lookup_ok(q, id);
    let a = match id {
        Some(i) => looked_up(p, i),
        None => p,
    };
    let b = match id {
        Some(i) => looked_up(q, i),
        None => q,
    };
    lemma_admission_of_states(a, b, tried, timeout, id, now);
}

// ---------------------------------------------------------------------------
// Selection
// ---------------------------------------------------------------------------

/// Preference is a strict order, and decides between any two keys.
pub proof fn law_preference_is_total(p: PoolView, tried: Seq<usize>, i: int, j: int, k: int)
    requires
        pool_ok(p),
        0 <= i < p.states.len(),
        0 <= j < p.states.len(),
        0 <= k < p.states.len(),
    ensures
        !preferred(p, tried, i, i),
        i != j ==> preferred(p, tried, i, j) || preferred(p, tried, j, i),
        preferred(p, tried, i, j) ==> !preferred(p, tried, j, i),
        preferred(p, tried, i, j) && preferred(p, tried, j, k) ==> preferred(p, tried, i, k),
{
}

/// There is one ranking: what `candidates` returns is determined.
pub proof fn law_ranking_is_unique(p: PoolView, tried: Seq<usize>, a: Seq<usize>, b: Seq<usize>)
    requires
        pool_ok(p),
        is_ranking(p, tried, a),
        is_ranking(p, tried, b),
    ensures
        a == b,
{
    lemma_ranking_prefix(p, tried, a, b, if a.len() <= b.len() {
        a.len() as int
    } else {
        b.len() as int
    });
    lemma_ranking_covers(p, tried, a, b);
    lemma_ranking_covers(p, tried, b, a);
    assert(a =~= b);
}

proof fn lemma_ranking_covers(p: PoolView, tried: Seq<usize>, a: Seq<usize>, b: Seq<usize>)
    requires
        pool_ok(p),
        is_ranking(p, tried, a),
        is_ranking(p, tried, b),
        forall|i: int| 0 <= i < a.len() && i < b.len() ==> a[i] == b[i],
    ensures
        a.len() >= b.len(),
{
    if a.len() < b.len() {
        let k = b[a.len() as int];
        assert(is_up(p, k as int));
        assert(a.contains(k));
        let i = choose|i: int| 0 <= i < a.len() && a[i] == k;
        assert(b[i] == k);
        assert(preferred(p, tried, b[i] as int, b[a.len() as int] as int));
        law_preference_is_total(p, tried, k as int, k as int, k as int);
    }
}

proof fn lemma_ranking_prefix(
    p: PoolView,
    tried: Seq<usize>,
    a: Seq<usize>,
    b: Seq<usize>,
    n: int,
)
    requires
        pool_ok(p),
        is_ranking(p, tried, a),
        is_ranking(p, tried, b),
        0 <= n <= a.len(),
        n <= b.len(),
    ensures
        forall|i: int| 0 <= i < n ==> a[i] == b[i],
    decreases n,
{
    if n > 0 {
        lemma_ranking_prefix(p, tried, a, b, n - 1);
        let x = a[n - 1];
        let y = b[n - 1];
        if x != y {
            assert(is_up(p, x as int) && is_up(p, y as int));
            assert(b.contains(x) && a.contains(y));
            let i = choose|i: int| 0 <= i < b.len() && b[i] == x;
            let j = choose|j: int| 0 <= j < a.len() && a[j] == y;
            if i < n - 1 {
                assert(a[i] == b[i]);
                assert(preferred(p, tried, a[i] as int, a[n - 1] as int));
                law_preference_is_total(p, tried, x as int, x as int, x as int);
            } else if j < n - 1 {
                assert(b[j] == a[j]);
                assert(preferred(p, tried, b[j] as int, b[n - 1] as int));
                law_preference_is_total(p, tried, y as int, y as int, y as int);
            } else {
                assert(preferred(p, tried, b[n - 1] as int, b[i] as int));
                assert(preferred(p, tried, a[n - 1] as int, a[j] as int));
                law_preference_is_total(p, tried, x as int, y as int, x as int);
            }
        }
    }
}

proof fn lemma_leader(p: PoolView, tried: Seq<usize>, free: bool, key: int)
    requires
        pool_ok(p),
        leads(p, tried, free, key),
    ensures
        leader(p, tried, free) == key,
{
    let other = leader(p, tried, free);
    assert(leads(p, tried, free, other));
    if other != key {
        assert(eligible(p, free, other) && eligible(p, free, key));
        law_preference_is_total(p, tried, key, other, key);
    }
}

/// `key` is eligible and preferred to every other eligible key before `n`.
spec fn leads_below(p: PoolView, tried: Seq<usize>, free: bool, n: int, key: int) -> bool {
    &&& eligible(p, free, key)
    &&& key < n
    &&& forall|j: int|
        #[trigger] eligible(p, free, j) && j < n && j != key ==> preferred(p, tried, key, j)
}

proof fn lemma_leads_below(p: PoolView, tried: Seq<usize>, free: bool, n: int, some: int) -> (key:
    int)
    requires
        pool_ok(p),
        0 <= n <= p.states.len(),
        eligible(p, free, some),
        some < n,
    ensures
        leads_below(p, tried, free, n, key),
    decreases n,
{
    let last = n - 1;
    if exists|k: int| #[trigger] eligible(p, free, k) && k < last {
        let k = choose|k: int| #[trigger] eligible(p, free, k) && k < last;
        let best = lemma_leads_below(p, tried, free, last, k);
        if eligible(p, free, last) && preferred(p, tried, last, best) {
            assert forall|j: int|
                #[trigger] eligible(p, free, j) && j < n && j != last implies preferred(
                p,
                tried,
                last,
                j,
            ) by {
                if j != best {
                    law_preference_is_total(p, tried, last, best, j);
                }
            }
            last
        } else {
            if eligible(p, free, last) {
                law_preference_is_total(p, tried, best, last, best);
            }
            best
        }
    } else {
        some
    }
}

/// Where a key is eligible, one is preferred to all others.
pub proof fn law_leader_leads(p: PoolView, tried: Seq<usize>, free: bool, some: int)
    requires
        pool_ok(p),
        eligible(p, free, some),
    ensures
        leads(p, tried, free, leader(p, tried, free)),
{
    let key = lemma_leads_below(p, tried, free, p.states.len() as int, some);
    assert(leads(p, tried, free, key));
}

pub(crate) proof fn lemma_insert_keeps_ranking(
    p: PoolView,
    tried: Seq<usize>,
    s: Seq<usize>,
    at: int,
    key: usize,
)
    requires
        pool_ok(p),
        key < p.states.len(),
        0 <= at <= s.len(),
        forall|a: int| 0 <= a < s.len() ==> (#[trigger] s[a]) < key,
        forall|a: int, b: int|
            0 <= a < b < s.len() ==> preferred(
                p,
                tried,
                #[trigger] s[a] as int,
                #[trigger] s[b] as int,
            ),
        forall|a: int| 0 <= a < at ==> preferred(p, tried, #[trigger] s[a] as int, key as int),
        at < s.len() ==> !preferred(p, tried, s[at] as int, key as int),
    ensures
        forall|a: int, b: int|
            0 <= a < b < s.len() + 1 ==> preferred(
                p,
                tried,
                #[trigger] s.insert(at, key)[a] as int,
                #[trigger] s.insert(at, key)[b] as int,
            ),
{
    let r = s.insert(at, key);
    assert forall|a: int, b: int| 0 <= a < b < r.len() implies preferred(
        p,
        tried,
        #[trigger] r[a] as int,
        #[trigger] r[b] as int,
    ) by {
        let x = if a < at {
            s[a]
        } else if a == at {
            key
        } else {
            s[a - 1]
        };
        let y = if b < at {
            s[b]
        } else if b == at {
            key
        } else {
            s[b - 1]
        };
        assert(r[a] == x && r[b] == y);
        if a == at {
            law_preference_is_total(p, tried, s[at] as int, key as int, key as int);
            if b - 1 > at {
                assert(preferred(p, tried, s[at] as int, s[b - 1] as int));
                law_preference_is_total(p, tried, key as int, s[at] as int, s[b - 1] as int);
            }
        }
    }
}

/// The first candidate that is eligible leads.
pub(crate) proof fn lemma_first_leads(p: PoolView, tried: Seq<usize>, r: Seq<usize>, free: bool, i: int)
    requires
        pool_ok(p),
        is_ranking(p, tried, r),
        0 <= i < r.len(),
        eligible(p, free, r[i] as int),
        forall|j: int| 0 <= j < i ==> !eligible(p, free, #[trigger] r[j] as int),
    ensures
        leads(p, tried, free, r[i] as int),
        leader(p, tried, free) == r[i],
{
    assert forall|k: int| #[trigger] eligible(p, free, k) && k != r[i] implies preferred(
        p,
        tried,
        r[i] as int,
        k,
    ) by {
        assert(r.contains(k as usize));
        let j = choose|j: int| 0 <= j < r.len() && r[j] == k as usize;
        assert(preferred(p, tried, r[i] as int, r[j] as int));
    }
    lemma_leader(p, tried, free, r[i] as int);
}

/// Quota and earlier tries demote a key but never exclude it: whatever they
/// are, the same keys are candidates.
pub proof fn law_demoted_never_excluded(
    p: PoolView,
    tried: Seq<usize>,
    r: Seq<usize>,
    other: PoolView,
    other_tried: Seq<usize>,
    other_r: Seq<usize>,
    key: usize,
)
    requires
        is_ranking(p, tried, r),
        is_ranking(other, other_tried, other_r),
        other.states == p.states,
    ensures
        r.contains(key) <==> other_r.contains(key),
{
    if r.contains(key) {
        let i = choose|i: int| 0 <= i < r.len() && r[i] == key;
        assert(is_up(other, r[i] as int));
    }
    if other_r.contains(key) {
        let i = choose|i: int| 0 <= i < other_r.len() && other_r[i] == key;
        assert(is_up(p, other_r[i] as int));
    }
}

/// Among candidates that were tried alike, keys over quota come after all
/// others, and among those over quota alike the less loaded come first.
pub proof fn law_fresh_then_least_loaded(
    p: PoolView,
    tried: Seq<usize>,
    r: Seq<usize>,
    i: int,
    j: int,
)
    requires
        is_ranking(p, tried, r),
        0 <= i < j < r.len(),
        is_tried(tried, r[i] as int) == is_tried(tried, r[j] as int),
    ensures
        over_quota(p, r[i] as int) ==> over_quota(p, r[j] as int),
        over_quota(p, r[i] as int) == over_quota(p, r[j] as int) ==> load(p, r[i] as int)
            <= load(p, r[j] as int),
{
    assert(preferred(p, tried, r[i] as int, r[j] as int));
}

/// A key over quota is granted only where no other untried key is up and free.
pub proof fn law_over_quota_serves_last(p: PoolView, tried: Seq<usize>, key: int, fresh: int)
    requires
        pool_ok(p),
        leads(p, tried, true, key),
        over_quota(p, key),
        0 <= fresh < p.states.len(),
        !over_quota(p, fresh),
        !is_tried(tried, fresh),
    ensures
        !eligible(p, true, fresh),
{
    if eligible(p, true, fresh) {
        assert(preferred(p, tried, key, fresh));
    }
}

/// A request that retries gets a key that it has not been on, where one is up
/// and free.
pub proof fn law_retry_moves_on(p: PoolView, tried: Seq<usize>, key: int, other: int)
    requires
        pool_ok(p),
        leads(p, tried, true, key),
        eligible(p, true, other),
        !is_tried(tried, other),
    ensures
        !is_tried(tried, key),
{
    if key != other {
        assert(preferred(p, tried, key, other));
    }
}

// ---------------------------------------------------------------------------
// Admission
// ---------------------------------------------------------------------------

/// What an admission gives: a slot only on a key that is up and had one free,
/// and the preferred of those; a place in a queue only where no key that is up
/// has a free slot, and there the queue had room.
pub proof fn law_admission(
    p: PoolView,
    tried: Seq<usize>,
    timeout: int,
    id: Option<u64>,
    now: int,
)
    requires
        pool_ok(p),
        timeout >= 0,
    ensures
        ({
            let q = all_seen(p, now);
            match admitted(p, tried, timeout, id, now).1 {
                Outcome::Granted { key } => {
                    &&& leads(q, tried, true, key)
                    &&& admitted(p, tried, timeout, id, now).0 == taken(q, key)
                },
                Outcome::Queued { ticket } => {
                    &&& leads(q, tried, false, ticket.key)
                    &&& !some_free(q)
                    &&& !queue_full(q, ticket.key)
                    &&& ticket.deadline == now + timeout
                    &&& ticket.id == id
                    &&& admitted(p, tried, timeout, id, now).0 == joined(q, ticket.key)
                },
                Outcome::Rejected { status, reason, retry_after } => {
                    &&& status == 503 <==> q.states.len() == 0
                    &&& status == 403 <==> q.states.len() > 0 && all_dead(q)
                    &&& status == 503 || status == 403 || status == 429
                    &&& status == 429 <==> retry_after is Some
                    &&& !some_free(q)
                    &&& admitted(p, tried, timeout, id, now).0 == q
                },
            }
        }),
{
    let q = all_seen(p, now);
    lemma_all_seen_ok(p, now);
    if some_free(q) {
        let some = choose|key: int| #[trigger] eligible(q, true, key);
        law_leader_leads(q, tried, true, some);
        assert(is_up(q, some));
    } else if any_up(q) {
        let some = choose|i: int| 0 <= i < q.states.len() && #[trigger] is_up(q, i);
        assert(eligible(q, false, some));
        law_leader_leads(q, tried, false, some);
        let key = leader(q, tried, false);
        assert(!eligible(q, true, key));
    }
}

/// Which keys may serve is a matter of their states alone.
proof fn lemma_same_states(a: PoolView, b: PoolView)
    requires
        a.states == b.states,
    ensures
        forall|free: bool, key: int| #[trigger]
            eligible(a, free, key) == eligible(b, free, key),
        any_up(a) == any_up(b),
        all_dead(a) == all_dead(b),
        some_free(a) == some_free(b),
{
    if any_up(a) {
        let some = choose|i: int| 0 <= i < a.states.len() && #[trigger] is_up(a, i);
        assert(is_up(b, some));
    }
    if any_up(b) {
        let some = choose|i: int| 0 <= i < b.states.len() && #[trigger] is_up(b, i);
        assert(is_up(a, some));
    }
    if some_free(a) {
        let some = choose|key: int| #[trigger] eligible(a, true, key);
        assert(eligible(b, true, some));
    }
    if some_free(b) {
        let some = choose|key: int| #[trigger] eligible(b, true, key);
        assert(eligible(a, true, some));
    }
}

/// `r[i]` is the first key of `r` with a free slot.
pub open spec fn first_free(p: PoolView, r: Seq<usize>, i: int) -> bool {
    &&& 0 <= i < r.len()
    &&& has_room(p, r[i] as int)
    &&& forall|j: int| 0 <= j < i ==> !has_room(p, #[trigger] r[j] as int)
}

proof fn lemma_first_free(p: PoolView, r: Seq<usize>, at: int) -> (i: int)
    requires
        0 <= at < r.len(),
        has_room(p, r[at] as int),
    ensures
        first_free(p, r, i),
    decreases at,
{
    if exists|j: int| 0 <= j < at && has_room(p, #[trigger] r[j] as int) {
        let j = choose|j: int| 0 <= j < at && has_room(p, #[trigger] r[j] as int);
        lemma_first_free(p, r, j)
    } else {
        at
    }
}

/// While some key that is up has a free slot, a request gets one at once,
/// however long it would wait: that of the first candidate with one. No other
/// slot, no queue, no pin and no key's health changes, but for cooldowns that
/// have run out.
pub proof fn law_free_slot_is_granted(
    p: PoolView,
    tried: Seq<usize>,
    r: Seq<usize>,
    timeout: int,
    id: Option<u64>,
    now: int,
)
    requires
        pool_ok(p),
        is_ranking(all_seen(p, now), tried, r),
        some_free(all_seen(p, now)),
    ensures
        exists|i: int| #[trigger]
            first_free(all_seen(p, now), r, i) && admitted(p, tried, timeout, id, now) == (
                taken(all_seen(p, now), r[i] as int),
                Outcome::Granted { key: r[i] as int },
            ),
{
    let q = all_seen(p, now);
    lemma_all_seen_ok(p, now);
    let some = choose|key: int| #[trigger] eligible(q, true, key);
    assert(is_up(q, some));
    assert(r.contains(some as usize));
    let at = choose|j: int| 0 <= j < r.len() && r[j] == some as usize;
    let i = lemma_first_free(q, r, at);
    assert(is_up(q, r[i] as int));
    lemma_first_leads(q, tried, r, true, i);
}

/// Taking a slot is just that: one more in use on the key, within its limit,
/// and nothing else.
pub proof fn law_taking_is_one_slot(p: PoolView, key: int, other: int)
    requires
        pool_ok(p),
        eligible(p, true, key),
        0 <= other < p.states.len(),
    ensures
        taken(p, key) == (PoolView { states: taken(p, key).states, ..p }),
        taken(p, key).states.len() == p.states.len(),
        taken(p, key).states[key].held == p.states[key].held + 1 <= p.states[key].concurrency,
        taken(p, key).states[other].health == p.states[other].health,
        taken(p, key).states[other].waiters == p.states[other].waiters,
        other != key ==> taken(p, key).states[other] == p.states[other],
{
}

/// What an admission counts: one more slot in use on the key that is granted,
/// one more waiting on the key that is waited for, and nothing where the
/// request is refused.
pub proof fn law_admission_counts(
    p: PoolView,
    tried: Seq<usize>,
    timeout: int,
    id: Option<u64>,
    now: int,
    key: int,
)
    requires
        pool_ok(p),
        timeout >= 0,
        0 <= key < p.states.len(),
    ensures
        ({
            let (q, o) = admitted_affine(p, tried, timeout, id, now);
            &&& q.states.len() == p.states.len()
            &&& q.states[key].held == p.states[key].held + if o == (Outcome::Granted { key }) {
                1int
            } else {
                0
            }
            &&& q.states[key].waiters == p.states[key].waiters + if o is Queued
                && o->ticket.key == key {
                1int
            } else {
                0
            }
        }),
{
    let q = match id {
        Some(i) => looked_up(p, i),
        None => p,
    };
    lemma_lookup_ok(p, id);
    law_admission(q, tried, timeout, id, now);
}

/// Admission keeps to the keys that there are, and to their number.
pub proof fn law_admission_in_range(
    p: PoolView,
    tried: Seq<usize>,
    timeout: int,
    id: Option<u64>,
    now: int,
)
    requires
        pool_ok(p),
        timeout >= 0,
    ensures
        admitted_affine(p, tried, timeout, id, now).0.states.len() == p.states.len(),
        match admitted_affine(p, tried, timeout, id, now).1 {
            Outcome::Granted { key } => 0 <= key < p.states.len(),
            Outcome::Queued { ticket } => 0 <= ticket.key < p.states.len(),
            Outcome::Rejected { .. } => true,
        },
{
    let q = match id {
        Some(i) => looked_up(p, i),
        None => p,
    };
    lemma_lookup_ok(p, id);
    law_admission(q, tried, timeout, id, now);
}

/// Admission leaves the health of every key as it is seen at `now`: strikes
/// and counts stay, and no cooldown that is under way ends.
pub proof fn law_admission_keeps_health(
    p: PoolView,
    tried: Seq<usize>,
    timeout: int,
    id: Option<u64>,
    now: int,
    key: int,
)
    requires
        pool_ok(p),
        timeout >= 0,
        0 <= key < p.states.len(),
    ensures
        admitted_affine(p, tried, timeout, id, now).0.states.len() == p.states.len(),
        refreshed(admitted_affine(p, tried, timeout, id, now).0.states[key].health, now)
            == refreshed(p.states[key].health, now),
        admitted_affine(p, tried, timeout, id, now).0.states[key].health.strikes
            == p.states[key].health.strikes,
        admitted_affine(p, tried, timeout, id, now).0.states[key].health.successes
            == p.states[key].health.successes,
        admitted_affine(p, tried, timeout, id, now).0.states[key].health.fails
            == p.states[key].health.fails,
{
    let q = match id {
        Some(i) => looked_up(p, i),
        None => p,
    };
    let a = admitted(q, tried, timeout, id, now);
    lemma_lookup_ok(p, id);
    law_admission(q, tried, timeout, id, now);
    assert(a.0.states.len() == p.states.len());
    assert(a.0.states[key].health == refreshed(p.states[key].health, now));
}

/// A dead key is never a candidate, nor granted to a request that arrives.
pub proof fn law_dead_keys_do_not_serve(
    p: PoolView,
    tried: Seq<usize>,
    timeout: int,
    id: Option<u64>,
    now: int,
    key: int,
)
    requires
        pool_ok(p),
        timeout >= 0,
        0 <= key < p.states.len(),
        p.states[key].health.state == State::Dead,
    ensures
        admitted_affine(p, tried, timeout, id, now).1 != (Outcome::Granted { key }),
{
    let q = match id {
        Some(i) => looked_up(p, i),
        None => p,
    };
    lemma_lookup_ok(p, id);
    law_admission(q, tried, timeout, id, now);
    assert(!is_up(all_seen(q, now), key));
}

/// Giving a slot back undoes taking it.
pub proof fn law_release_undoes_acquire(p: PoolView, key: int)
    requires
        pool_ok(p),
        0 <= key < p.states.len(),
    ensures
        freed(taken(p, key), key) == p,
{
    assert(key_ok(p.states[key]));
    assert(freed(taken(p, key), key) =~= p);
}

/// Leaving a queue undoes joining it.
pub proof fn law_parting_undoes_joining(p: PoolView, key: int)
    requires
        pool_ok(p),
        0 <= key < p.states.len(),
    ensures
        parted(joined(p, key), key) == p,
{
    assert(key_ok(p.states[key]));
    assert(parted(joined(p, key), key) =~= p);
}

/// A wait ends by its deadline: the request has a slot or is refused, and has
/// left the queue.
pub proof fn law_waits_are_bounded(p: PoolView, ticket: TicketView, now: int)
    requires
        pool_ok(p),
        0 <= ticket.key < p.states.len(),
        now >= ticket.deadline,
    ensures
        !(resumed(p, ticket, now).1 is Queued),
        resumed(p, ticket, now).0.states[ticket.key].waiters == parted(
            p,
            ticket.key,
        ).states[ticket.key].waiters,
{
    assert(key_ok(p.states[ticket.key]));
}

// ---------------------------------------------------------------------------
// Affinity
// ---------------------------------------------------------------------------

/// A pin that can serve right now decides: the request gets its key without
/// waiting. One more slot of that key is in use, and the conversation stays
/// pinned to it; no other key, and no other pin, changes.
pub proof fn law_usable_pin_decides(
    p: PoolView,
    tried: Seq<usize>,
    timeout: int,
    id: u64,
    now: int,
    other: u64,
)
    requires
        pool_ok(p),
        pin_serves_anew(p, tried, id, now),
    ensures
        ({
            let key = pinned_key(p, id)->0 as int;
            let (q, o) = admitted_affine(p, tried, timeout, Some(id), now);
            &&& o == Outcome::Granted { key }
            &&& q == PoolView { states: q.states, pins: q.pins, ..p }
            &&& q.states == p.states.update(
                key,
                KeyView { held: p.states[key].held + 1, ..seen(p.states[key], now) },
            )
            &&& pinned_key(q, id) == Some(key as usize)
            &&& pinned_key(q, other) == pinned_key(p, other)
        }),
{
    let key = pinned_key(p, id)->0;
    lemma_lookup_ok(p, Some(id));
    affinity::law_lookup_keeps_pins(p.pins, id, id);
    affinity::law_lookup_keeps_pins(p.pins, id, other);
    affinity::law_pin_is_found(looked_up(p, id).pins, p.pin_cap, id, key, other);
    let q = admitted_affine(p, tried, timeout, Some(id), now).0;
    assert(q.states =~= p.states.update(
        key as int,
        KeyView { held: p.states[key as int].held + 1, ..seen(p.states[key as int], now) },
    ));
}

/// `a` and `b` end alike: with a slot of the same key, with a place in the same
/// queue for as long, or refused in the same words.
pub open spec fn same_outcome(a: Outcome, b: Outcome) -> bool {
    match (a, b) {
        (Outcome::Queued { ticket: t }, Outcome::Queued { ticket: u }) => t.key == u.key
            && t.deadline == u.deadline,
        _ => a == b,
    }
}

/// A request without an identity, or with a pin that cannot serve, is admitted
/// as any other, from the same state: a pin never blocks.
pub proof fn law_unusable_pin_is_ignored(
    p: PoolView,
    tried: Seq<usize>,
    timeout: int,
    id: Option<u64>,
    now: int,
)
    requires
        pool_ok(p),
        id is Some ==> !pin_serves_anew(p, tried, id->0, now),
    ensures
        same_outcome(
            admitted_affine(p, tried, timeout, id, now).1,
            admitted(p, tried, timeout, None, now).1,
        ),
        admitted_affine(p, tried, timeout, id, now).0.states == admitted(
            p,
            tried,
            timeout,
            None,
            now,
        ).0.states,
{
    if let Some(i) = id {
        let q = looked_up(p, i);
        lemma_lookup_ok(p, id);
        lemma_admission_of_states(p, q, tried, timeout, id, now);
    }
}

/// No pin is added, moved or dropped where no slot is granted, where the
/// request has no identity, and while affinity is off.
pub proof fn law_only_grants_pin(
    p: PoolView,
    tried: Seq<usize>,
    timeout: int,
    id: Option<u64>,
    now: int,
    other: u64,
)
    requires
        pool_ok(p),
        id is None || !p.affinity || !(admitted_affine(p, tried, timeout, id, now).1 is Granted),
    ensures
        affinity::pinned(admitted_affine(p, tried, timeout, id, now).0.pins, other)
            == affinity::pinned(p.pins, other),
        admitted_affine(p, tried, timeout, id, now).0.pins.len() == p.pins.len(),
{
    if let Some(i) = id {
        affinity::law_lookup_keeps_pins(p.pins, i, other);
    }
}

/// Admission without affinity looks neither at the pins nor at the secrets.
proof fn lemma_admission_of_states(
    p: PoolView,
    q: PoolView,
    tried: Seq<usize>,
    timeout: int,
    id: Option<u64>,
    now: int,
)
    requires
        pool_ok(p),
        pool_ok(q),
        q == (PoolView { pins: q.pins, keys: q.keys, ..p }),
    ensures
        admitted(q, tried, timeout, id, now).1 == admitted(p, tried, timeout, id, now).1,
        admitted(q, tried, timeout, id, now).0 == (PoolView {
            pins: q.pins,
            keys: q.keys,
            ..admitted(p, tried, timeout, id, now).0
        }),
{
    let a = all_seen(p, now);
    let b = all_seen(q, now);
    assert(a.states == b.states);
    lemma_all_seen_ok(p, now);
    lemma_all_seen_ok(q, now);
    lemma_same_states(a, b);
    if some_free(a) {
        let some = choose|key: int| #[trigger] eligible(a, true, key);
        lemma_same_leader(a, b, tried, true, some);
    }
    if any_up(a) {
        let some = choose|key: int| 0 <= key < a.states.len() && #[trigger] is_up(a, key);
        lemma_same_leader(a, b, tried, false, some);
    }
}

proof fn lemma_same_leader(a: PoolView, b: PoolView, tried: Seq<usize>, free: bool, some: int)
    requires
        pool_ok(a),
        pool_ok(b),
        b == (PoolView { pins: b.pins, keys: b.keys, ..a }),
        eligible(a, free, some),
    ensures
        leader(a, tried, free) == leader(b, tried, free),
{
    law_leader_leads(a, tried, free, some);
    let key = leader(a, tried, free);
    assert forall|j: int| #[trigger] eligible(b, free, j) && j != key implies preferred(
        b,
        tried,
        key,
        j,
    ) by {
        assert(eligible(a, free, j));
        assert(preferred(a, tried, key, j));
    }
    assert(leads(b, tried, free, key));
    lemma_leader(b, tried, free, key);
}

/// The key that is granted is the pin from then on, while affinity is on, so
/// that requests of one conversation that overlap share a key.
pub proof fn law_grant_pins(
    p: PoolView,
    tried: Seq<usize>,
    timeout: int,
    id: u64,
    now: int,
)
    requires
        pool_ok(p),
        p.affinity,
        timeout >= 0,
        admitted_affine(p, tried, timeout, Some(id), now).1 is Granted,
    ensures
        pinned_key(admitted_affine(p, tried, timeout, Some(id), now).0, id) == Some(
            admitted_affine(p, tried, timeout, Some(id), now).1->key as usize,
        ),
{
    let q = looked_up(p, id);
    lemma_lookup_ok(p, Some(id));
    law_admission(q, tried, timeout, Some(id), now);
    let key = admitted_affine(p, tried, timeout, Some(id), now).1->key as usize;
    affinity::law_pin_is_found(q.pins, q.pin_cap, id, key, id);
}

/// With affinity off, an identity makes no difference.
pub proof fn law_affinity_off(
    p: PoolView,
    tried: Seq<usize>,
    timeout: int,
    id: u64,
    now: int,
)
    requires
        !p.affinity,
    ensures
        admitted_affine(p, tried, timeout, Some(id), now) == admitted(
            p,
            tried,
            timeout,
            Some(id),
            now,
        ),
{
}

// ---------------------------------------------------------------------------
// Load
// ---------------------------------------------------------------------------

/// `i` and `j` were tried alike, and quota-aware routing makes no difference
/// between them.
pub open spec fn ranked_by_load(p: PoolView, tried: Seq<usize>, i: int, j: int) -> bool {
    &&& tried.contains(i as usize) == tried.contains(j as usize)
    &&& (p.threshold != 0 && p.over.contains(i)) == (p.threshold != 0 && p.over.contains(j))
}

/// The share of its slots that `i` has in use is not higher than that of `j` by
/// a 1024th or more.
pub open spec fn no_busier(p: PoolView, i: int, j: int) -> bool {
    let a = p.states[i];
    let b = p.states[j];
    a.held * b.concurrency * 1024 < b.held * a.concurrency * 1024 + a.concurrency * b.concurrency
}

proof fn lemma_no_busier(p: PoolView, tried: Seq<usize>, i: int, j: int)
    requires
        pool_ok(p),
        0 <= i < p.states.len(),
        0 <= j < p.states.len(),
        ranked_by_load(p, tried, i, j),
        preferred(p, tried, i, j),
    ensures
        no_busier(p, i, j),
        p.states[i].concurrency == p.states[j].concurrency <= 1024 ==> p.states[i].held
            <= p.states[j].held,
        p.states[j].held == 0 && p.states[i].concurrency <= 1024 ==> p.states[i].held == 0,
{
    let h = p.states[i].held;
    let c = p.states[i].concurrency;
    let k = p.states[j].held;
    let d = p.states[j].concurrency;
    assert(key_ok(p.states[i]));
    assert(key_ok(p.states[j]));
    let x = load(p, i);
    let y = load(p, j);
    assert(x <= y);
    assert(h * 1024 < (x + 1) * c) by (nonlinear_arith)
        requires
            x == (h * 1024) / c,
            c >= 1,
            h >= 0,
    ;
    assert(y * d <= k * 1024) by (nonlinear_arith)
        requires
            y == (k * 1024) / d,
            d >= 1,
            k >= 0,
    ;
    assert(h * d * 1024 < k * c * 1024 + c * d) by (nonlinear_arith)
        requires
            h * 1024 < (x + 1) * c,
            y * d <= k * 1024,
            x <= y,
            c >= 1,
            d >= 1,
    ;
    if c == d && c <= 1024 {
        assert(h <= k) by (nonlinear_arith)
            requires
                h * d * 1024 < k * c * 1024 + c * d,
                c == d,
                1 <= c <= 1024,
        ;
    }
    if k == 0 && c <= 1024 {
        assert(h == 0) by (nonlinear_arith)
            requires
                h * d * 1024 < k * c * 1024 + c * d,
                k == 0,
                1 <= c <= 1024,
                d >= 1,
                h >= 0,
        ;
    }
}

/// Candidates come least loaded first: none comes before another, tried and
/// over quota alike, that has a share of its slots in use smaller by a 1024th
/// or more. Of two with the same number of slots, 1024 at most, the one with
/// fewer in use comes first, and an idle key comes before any that is not.
pub proof fn law_candidates_are_least_loaded_first(
    p: PoolView,
    tried: Seq<usize>,
    r: Seq<usize>,
    i: int,
    j: int,
)
    requires
        pool_ok(p),
        is_ranking(p, tried, r),
        0 <= i < j < r.len(),
        ranked_by_load(p, tried, r[i] as int, r[j] as int),
    ensures
        no_busier(p, r[i] as int, r[j] as int),
        p.states[r[i] as int].concurrency == p.states[r[j] as int].concurrency <= 1024
            ==> p.states[r[i] as int].held <= p.states[r[j] as int].held,
        p.states[r[j] as int].held == 0 && p.states[r[i] as int].concurrency <= 1024
            ==> p.states[r[i] as int].held == 0,
{
    assert(preferred(p, tried, r[i] as int, r[j] as int));
    lemma_no_busier(p, tried, r[i] as int, r[j] as int);
}

/// A slot is granted on the least loaded key: every other key that is up and
/// free, tried and over quota alike, is no less busy. In particular none with
/// as many slots, 1024 at most, has fewer in use, and none is idle while the
/// granted one is not.
pub proof fn law_grants_are_least_loaded(
    p: PoolView,
    tried: Seq<usize>,
    timeout: int,
    id: Option<u64>,
    now: int,
    other: int,
)
    requires
        pool_ok(p),
        timeout >= 0,
        admitted(p, tried, timeout, id, now).1 is Granted,
        0 <= other < p.states.len(),
        refreshed(p.states[other].health, now).state == State::Up,
        p.states[other].held < p.states[other].concurrency,
        ranked_by_load(p, tried, admitted(p, tried, timeout, id, now).1->key, other),
    ensures
        ({
            let key = admitted(p, tried, timeout, id, now).1->key;
            &&& no_busier(p, key, other)
            &&& p.states[key].concurrency == p.states[other].concurrency <= 1024
                ==> p.states[key].held <= p.states[other].held
            &&& p.states[other].held == 0 && p.states[key].concurrency <= 1024
                ==> p.states[key].held == 0
        }),
{
    let q = all_seen(p, now);
    let key = admitted(p, tried, timeout, id, now).1->key;
    law_admission(p, tried, timeout, id, now);
    lemma_all_seen_ok(p, now);
    assert(key_ok(p.states[key]));
    assert(eligible(q, true, other));
    if key != other {
        assert(preferred(q, tried, key, other));
        lemma_no_busier(q, tried, key, other);
    } else {
        let c = p.states[key].concurrency;
        assert(c * c > 0) by (nonlinear_arith)
            requires
                c >= 1,
        ;
    }
}

/// Equally loaded keys take turns: the tie-breaker counts round the keys.
pub proof fn law_ties_take_turns(p: PoolView, tried: Seq<usize>, i: int, j: int)
    requires
        pool_ok(p),
        0 <= i < p.states.len(),
        0 <= j < p.states.len(),
        ranked_by_load(p, tried, i, j),
        p.states[i].held == p.states[j].held,
        p.states[i].concurrency == p.states[j].concurrency,
    ensures
        ({
            let n = p.states.len() as int;
            preferred(p, tried, i, j) <==> (i + p.rr) % n < (j + p.rr) % n
        }),
{
    let n = p.states.len() as int;
    assert((i + p.rr) % n == turn(p, i)) by {
        lemma_turn(i + p.rr, n);
    }
    assert((j + p.rr) % n == turn(p, j)) by {
        lemma_turn(j + p.rr, n);
    }
}

proof fn lemma_turn(k: int, n: int)
    requires
        0 <= k < 2 * n,
    ensures
        k % n == if k < n {
            k
        } else {
            k - n
        },
{
    if k < n {
        vstd::arithmetic::div_mod::lemma_small_mod(k as nat, n as nat);
    } else {
        vstd::arithmetic::div_mod::lemma_mod_sub_multiples_vanish(k, n);
        vstd::arithmetic::div_mod::lemma_small_mod((k - n) as nat, n as nat);
    }
}

/// What comes first, before load: keys that the request has not been on, and
/// among those alike in that, keys that quota-aware routing does not demote.
pub proof fn law_untried_then_under_quota(
    p: PoolView,
    tried: Seq<usize>,
    r: Seq<usize>,
    i: int,
    j: int,
)
    requires
        is_ranking(p, tried, r),
        0 <= i < j < r.len(),
    ensures
        tried.contains(r[i]) ==> tried.contains(r[j]),
        tried.contains(r[i]) == tried.contains(r[j]) && p.threshold != 0 && p.over.contains(
            r[i] as int,
        ) ==> p.over.contains(r[j] as int),
{
    assert(preferred(p, tried, r[i] as int, r[j] as int));
}

// ---------------------------------------------------------------------------
// Marks
// ---------------------------------------------------------------------------

/// A rejected key is dead from then on, with a clean count, one failure more
/// and the reason.
pub proof fn law_rejection_kills(h: HealthView, reason: Seq<char>, later: int)
    ensures
        ({
            let g = died(h, reason);
            &&& refreshed(g, later).state == State::Dead
            &&& g.until is None
            &&& g.strikes == 0
            &&& g.fails == h.fails + 1
            &&& g.successes == h.successes
            &&& g.last_error == Some(reason)
        }),
{
}

/// A cooldown keeps strikes and successes, counts one failure and its reason,
/// and ends when it is said to, unless the key is dead.
pub proof fn law_cooling_counts_once(h: HealthView, until: int, reason: Seq<char>)
    ensures
        ({
            let g = cooled(h, until, reason);
            &&& g.strikes == h.strikes
            &&& g.successes == h.successes
            &&& g.fails == h.fails + 1
            &&& g.last_error == Some(reason)
            &&& h.state != State::Dead ==> g.state == State::Cooldown && g.until == Some(until)
            &&& h.state == State::Dead ==> g.state == State::Dead && g.until == h.until
        }),
{
}

/// A failure is one strike; the third in a row, and only that, puts a key that
/// is not dead in cooldown for a minute and starts the count over.
pub proof fn law_third_failure_cools(h: HealthView, now: int, reason: Seq<char>)
    requires
        0 <= h.strikes < 3,
    ensures
        ({
            let g = struck(h, now, reason);
            &&& g.last_error == Some(reason)
            &&& g.successes == h.successes
            &&& h.strikes < 2 ==> g == (HealthView {
                strikes: h.strikes + 1,
                fails: h.fails + 1,
                last_error: Some(reason),
                ..h
            })
            &&& h.strikes == 2 ==> g.strikes == 0 && g.fails == h.fails + 2
            &&& h.strikes == 2 && h.state != State::Dead ==> g.state == State::Cooldown && g.until
                == Some(now + 60_000_000_000)
        }),
{
}

/// The passing of time ends cooldowns and does nothing else.
pub proof fn law_time_only_ends_cooldowns(h: HealthView, now: int)
    ensures
        h.state == State::Cooldown && (h.until is None || h.until->0 <= now) ==> refreshed(h, now)
            == (HealthView { state: State::Up, until: None, ..h }),
        !(h.state == State::Cooldown && (h.until is None || h.until->0 <= now)) ==> refreshed(
            h,
            now,
        ) == h,
{
}

// ---------------------------------------------------------------------------
// Admission in full
// ---------------------------------------------------------------------------

/// Key `key` of `p` could serve one more request at `now`: it is up, or its
/// cooldown has run out, and fewer requests are in flight than it has slots.
pub open spec fn could_serve(p: PoolView, key: int, now: int) -> bool {
    let k = p.states[key];
    &&& 0 <= key < p.states.len()
    &&& k.health.state == State::Up || (k.health.state == State::Cooldown && k.health.until->0
        <= now)
    &&& k.held < k.concurrency
}

proof fn lemma_could_serve(p: PoolView, key: int, now: int)
    requires
        pool_ok(p),
        0 <= key < p.states.len(),
    ensures
        could_serve(p, key, now) <==> eligible(all_seen(p, now), true, key),
{
    assert(key_ok(p.states[key]));
}

/// Every slot serves: a request gets one exactly if some key could serve it,
/// and then of a key that could.
pub proof fn law_every_slot_serves(
    p: PoolView,
    tried: Seq<usize>,
    timeout: int,
    id: Option<u64>,
    now: int,
    some: int,
)
    requires
        pool_ok(p),
        timeout >= 0,
    ensures
        could_serve(p, some, now) ==> admitted(p, tried, timeout, id, now).1 is Granted,
        admitted(p, tried, timeout, id, now).1 matches Outcome::Granted { key } ==> could_serve(
            p,
            key,
            now,
        ),
{
    let q = all_seen(p, now);
    law_admission(p, tried, timeout, id, now);
    if could_serve(p, some, now) {
        lemma_could_serve(p, some, now);
        assert(is_up(q, some));
        assert(some_free(q));
    }
    if let Outcome::Granted { key } = admitted(p, tried, timeout, id, now).1 {
        lemma_could_serve(p, key, now);
    }
}

/// What is answered where there is nothing to serve with: 503 without keys, 403
/// where all are dead, and 429 where those that are not are cooling. The latter
/// names the time to the first recovery in seconds, and one at least.
pub proof fn law_nothing_to_serve_with(
    p: PoolView,
    tried: Seq<usize>,
    timeout: int,
    id: Option<u64>,
    now: int,
)
    requires
        pool_ok(p),
        forall|i: int|
            0 <= i < p.states.len() ==> refreshed((#[trigger] p.states[i]).health, now).state
                != State::Up,
    ensures
        ({
            let (q, o) = admitted(p, tried, timeout, id, now);
            &&& o is Rejected
            &&& p.states.len() == 0 ==> o == (Outcome::Rejected {
                status: 503,
                reason: NO_KEYS@,
                retry_after: None,
            })
            &&& p.states.len() > 0 && (forall|i: int|
                0 <= i < p.states.len() ==> (#[trigger] p.states[i]).health.state == State::Dead)
                ==> o == (Outcome::Rejected { status: 403, reason: ALL_DEAD@, retry_after: None })
            &&& forall|i: int|
                0 <= i < p.states.len() && (#[trigger] p.states[i]).health.state
                    == State::Cooldown ==> o->status == 429 && o->reason == ALL_COOLING@
                    && o->retry_after is Some && 1 <= o->retry_after->0 && (o->retry_after->0
                    == 1 || o->retry_after->0 * 1_000_000_000 <= p.states[i].health.until->0
                    - now)
            &&& o->status == 429 ==> exists|i: int|
                0 <= i < p.states.len() && (#[trigger] p.states[i]).health.state
                    == State::Cooldown && p.states[i].health.until->0 - now
                    < (o->retry_after->0 + 1) * 1_000_000_000
        }),
{
    let q = all_seen(p, now);
    lemma_all_seen_ok(p, now);
    assert forall|i: int| 0 <= i < q.states.len() implies !#[trigger] is_up(q, i) by {
        assert(p.states[i].health == p.states[i].health);
    }
    assert forall|i: int| 0 <= i < p.states.len() implies (#[trigger] p.states[i]).health
        == q.states[i].health by {
        assert(key_ok(p.states[i]));
    }
    if p.states.len() > 0 && (forall|i: int|
        0 <= i < p.states.len() ==> (#[trigger] p.states[i]).health.state == State::Dead) {
        assert forall|i: int| 0 <= i < q.states.len() implies (
        #[trigger] q.states[i]).health.state == State::Dead by {
            assert(p.states[i].health.state == State::Dead);
        }
    }
    if p.states.len() > 0 && !all_dead(q) {
        let i = choose|i: int|
            0 <= i < q.states.len() && (#[trigger] q.states[i]).health.state != State::Dead;
        assert(!is_up(q, i));
        assert(key_ok(q.states[i]));
        law_soonest_is_first(q.states, i);
        let first = lemma_soonest_is_some(q.states);
        assert(p.states[first].health == q.states[first].health);
        assert forall|j: int|
            0 <= j < p.states.len() && (#[trigger] p.states[j]).health.state
                == State::Cooldown implies soonest(q.states)->0 <= p.states[j].health.until->0
            && p.states[j].health.until->0 > now by {
            assert(key_ok(q.states[j]));
            assert(!is_up(q, j));
            law_soonest_is_first(q.states, j);
        }
        let t = soonest(q.states)->0;
        assert(t > now);
    }
    assert forall|i: int|
        0 <= i < p.states.len() && (#[trigger] p.states[i]).health.state
            == State::Cooldown implies !all_dead(q) by {
        assert(q.states[i].health.state == State::Cooldown);
    }
}

/// The first recovery is that of a key in cooldown, and no key in cooldown
/// recovers before.
pub proof fn law_soonest_is_first(states: Seq<KeyView>, i: int)
    requires
        0 <= i < states.len(),
        states[i].health.state == State::Cooldown,
        states[i].health.until is Some,
    ensures
        soonest(states) is Some,
        soonest(states)->0 <= states[i].health.until->0,
    decreases states.len(),
{
    if i < states.len() - 1 {
        law_soonest_is_first(states.drop_last(), i);
    }
}

proof fn lemma_soonest_is_some(states: Seq<KeyView>) -> (i: int)
    requires
        soonest(states) is Some,
    ensures
        0 <= i < states.len(),
        states[i].health.state == State::Cooldown,
        states[i].health.until == soonest(states),
    decreases states.len(),
{
    let rest = soonest(states.drop_last());
    let n = states.len() - 1;
    if rest is Some && soonest(states) == rest {
        lemma_soonest_is_some(states.drop_last())
    } else {
        n
    }
}

/// What is answered where keys are up and none is free: 429 with two seconds to
/// wait where the queue takes no more, 429 with one where nobody is to wait,
/// and else a place in a queue that had room, until the time is up.
pub proof fn law_all_slots_taken(
    p: PoolView,
    tried: Seq<usize>,
    timeout: int,
    id: Option<u64>,
    now: int,
    up: int,
)
    requires
        pool_ok(p),
        timeout >= 0,
        0 <= up < p.states.len(),
        refreshed(p.states[up].health, now).state == State::Up,
        forall|i: int| 0 <= i < p.states.len() ==> !#[trigger] could_serve(p, i, now),
    ensures
        ({
            let (q, o) = admitted(p, tried, timeout, id, now);
            match o {
                Outcome::Granted { .. } => false,
                Outcome::Queued { ticket } => {
                    let k = p.states[ticket.key];
                    &&& timeout > 0
                    &&& 0 <= ticket.key < p.states.len()
                    &&& refreshed(k.health, now).state == State::Up
                    &&& k.waiters < k.waiter_cap
                    &&& q.states[ticket.key].waiters == k.waiters + 1
                    &&& ticket.deadline == now + timeout
                    &&& ticket.id == id
                },
                Outcome::Rejected { status, reason, retry_after } => {
                    &&& status == 429
                    &&& (reason == QUEUE_FULL@ && retry_after == Some(2int) && exists|i: int|
                        0 <= i < p.states.len() && (#[trigger] p.states[i]).waiters
                            >= p.states[i].waiter_cap) || (reason == QUEUED_TOO_LONG@
                        && retry_after == Some(1int) && timeout == 0)
                },
            }
        }),
        (forall|i: int|
            0 <= i < p.states.len() ==> (#[trigger] p.states[i]).waiters < p.states[i].waiter_cap)
            && timeout > 0 ==> admitted(p, tried, timeout, id, now).1 is Queued,
{
    let q = all_seen(p, now);
    lemma_all_seen_ok(p, now);
    law_admission(p, tried, timeout, id, now);
    assert(is_up(q, up));
    assert(q.states[up].health.state != State::Dead);
    assert forall|k: int| !#[trigger] eligible(q, true, k) by {
        if eligible(q, true, k) {
            lemma_could_serve(p, k, now);
            assert(could_serve(p, k, now));
        }
    }
    assert(eligible(q, false, up));
    law_leader_leads(q, tried, false, up);
    let key = leader(q, tried, false);
    assert(!eligible(q, true, key));
    assert(p.states[key].waiters == q.states[key].waiters);
}

/// A waiting request that asks again gets the slot that has come free on its
/// key, is refused with a second to wait once its time is up, and else waits
/// on, with nothing changed.
pub proof fn law_asking_again(p: PoolView, ticket: TicketView, now: int)
    requires
        pool_ok(p),
        0 <= ticket.key < p.states.len(),
    ensures
        ({
            let k = p.states[ticket.key];
            let (q, o) = resumed(p, ticket, now);
            if k.held < k.concurrency {
                &&& o == Outcome::Granted { key: ticket.key }
                &&& q.states[ticket.key].held == k.held + 1
                &&& k.waiters > 0 ==> q.states[ticket.key].waiters == k.waiters - 1
                &&& p.affinity && ticket.id is Some ==> pinned_key(q, ticket.id->0) == Some(
                    ticket.key as usize,
                )
                &&& ticket.id is None ==> q.pins == p.pins
            } else if now >= ticket.deadline {
                &&& o == Outcome::Rejected {
                    status: 429,
                    reason: QUEUED_TOO_LONG@,
                    retry_after: Some(1int),
                }
                &&& q.states[ticket.key].held == k.held
                &&& k.waiters > 0 ==> q.states[ticket.key].waiters == k.waiters - 1
                &&& q.pins == p.pins
            } else {
                o == (Outcome::Queued { ticket }) && q == p
            }
        }),
        forall|i: int|
            0 <= i < p.states.len() && i != ticket.key ==> #[trigger] resumed(
                p,
                ticket,
                now,
            ).0.states[i] == p.states[i],
{
    if let Some(id) = ticket.id {
        affinity::law_pin_is_found(p.pins, p.pin_cap, id, ticket.key as usize, id);
    }
}

/// Who waits asks again every quarter of a second, and at the deadline.
pub proof fn law_pauses_are_short(ticket: TicketView, now: int)
    ensures
        0 <= pause_of(ticket, now) <= 250_000_000,
        now < ticket.deadline ==> 0 < pause_of(ticket, now) <= ticket.deadline - now,
        now < ticket.deadline && pause_of(ticket, now) < 250_000_000 ==> now + pause_of(ticket, now)
            == ticket.deadline,
        now >= ticket.deadline ==> pause_of(ticket, now) == 0,
{
}

/// The pin decides exactly where its key could serve, is not over quota, and is
/// none that the request has been on; else the request is admitted like any
/// other.
pub proof fn law_pins_decide_where_they_can(
    p: PoolView,
    tried: Seq<usize>,
    timeout: int,
    id: u64,
    now: int,
    k: usize,
)
    requires
        pool_ok(p),
        p.affinity,
        affinity::pinned(p.pins, id) == Some(k),
    ensures
        ({
            let over = p.threshold != 0 && p.over.contains(k as int);
            let o = admitted_affine(p, tried, timeout, Some(id), now).1;
            if could_serve(p, k as int, now) && !over && !tried.contains(k) {
                o == Outcome::Granted { key: k as int }
            } else {
                same_outcome(o, admitted(p, tried, timeout, None, now).1)
            }
        }),
{
    affinity::lemma_position_range(p.pins, id);
    lemma_lookup_ok(p, Some(id));
    assert(pinned_key(p, id) == Some(k));
    assert(key_ok(p.states[k as int]));
    assert(could_serve(p, k as int, now) ==> state_at(p.states[k as int], now) == State::Up);
    if !pin_serves_anew(p, tried, id, now) {
        law_unusable_pin_is_ignored(p, tried, timeout, Some(id), now);
    }
}

/// Without a pin, or with affinity off, an identity makes no difference to
/// what becomes of a request.
pub proof fn law_no_pin_no_difference(
    p: PoolView,
    tried: Seq<usize>,
    timeout: int,
    id: u64,
    now: int,
)
    requires
        pool_ok(p),
        !p.affinity || affinity::pinned(p.pins, id) is None,
    ensures
        same_outcome(
            admitted_affine(p, tried, timeout, Some(id), now).1,
            admitted(p, tried, timeout, None, now).1,
        ),
{
    law_unusable_pin_is_ignored(p, tried, timeout, Some(id), now);
}

// ---------------------------------------------------------------------------
// Reports in full
// ---------------------------------------------------------------------------

/// A report says of each key, in order, what there is: its place, the end of
/// its secret, its slots and queue, its record, and how many seconds of a
/// cooldown are left, rounded up past the end.
pub proof fn law_reports_are_true(p: PoolView, now: int, i: int)
    requires
        pool_ok(p),
        0 <= i < p.states.len(),
    ensures
        report(p, now).len() == p.states.len(),
        ({
            let said = report(p, now)[i];
            let k = p.states[i];
            let h = k.health;
            let over = h.state == State::Cooldown && h.until->0 <= now;
            &&& said.index == i
            &&& said.suffix == config::suffix_of(p.keys[i])
            &&& said.concurrency == k.concurrency
            &&& said.in_use == k.held
            &&& said.waiters == k.waiters
            &&& said.strikes == h.strikes
            &&& said.fails == h.fails
            &&& said.successes == h.successes
            &&& said.last_error == h.last_error
            &&& said.usage is None
            &&& said.state == if over {
                State::Up
            } else {
                h.state
            }
            &&& said.cooldown_left_s is Some <==> said.state == State::Cooldown
            &&& said.cooldown_left_s matches Some(left) ==> (left - 1) * 1_000_000_000
                <= h.until->0 - now < left * 1_000_000_000
        }),
{
    assert(key_ok(p.states[i]));
    lemma_seen_ok(p.states[i], now);
    assert(all_seen(p, now).states[i] == seen(p.states[i], now));
}

/// The figures beside a key are those of its row; there are none where the row
/// has neither; and a key is marked as over quota exactly if quota-aware
/// routing is on and its session figure reaches the threshold.
pub proof fn law_briefs_are_true(row: KeyUsage, threshold: int)
    ensures
        brief(row, threshold) is None <==> row.session is None && row.weekly is None,
        brief(row, threshold) matches Some(b) ==> {
            &&& b.session == row.session
            &&& b.weekly == row.weekly
            &&& b.session_pct is Some <==> row.session is Some
            &&& b.weekly_pct is Some <==> row.weekly is Some
            &&& row.session matches Some(s) ==> b.session_pct == Some(s.pct_x10)
            &&& row.weekly matches Some(s) ==> b.weekly_pct == Some(s.pct_x10)
            &&& b.over_quota <==> threshold != 0 && row.session is Some
                && row.session->0.permille >= threshold
        },
{
}

/// Published figures demote exactly the keys, of the first 64, that have a row
/// whose session figure reaches the threshold.
pub proof fn law_figures_demote(rows: Seq<KeyUsage>, threshold: int, key: int)
    ensures
        over_threshold(rows, threshold).contains(key) <==> threshold != 0 && key < 64
            && exists|j: int|
            0 <= j < rows.len() && (#[trigger] rows[j]).index == key && rows[j].session is Some
                && rows[j].session->0.permille >= threshold,
{
    if over_threshold(rows, threshold).contains(key) {
        let j = choose|j: int|
            0 <= j < rows.len() && (#[trigger] rows[j]).index == key && at_threshold(
                rows[j].session,
                threshold,
            );
        assert(rows[j].session->0.permille >= threshold);
    }
    if threshold != 0 && key < 64 && exists|j: int|
        0 <= j < rows.len() && (#[trigger] rows[j]).index == key && rows[j].session is Some
            && rows[j].session->0.permille >= threshold {
        let j = choose|j: int|
            0 <= j < rows.len() && (#[trigger] rows[j]).index == key && rows[j].session is Some
                && rows[j].session->0.permille >= threshold;
        assert(at_threshold(rows[j].session, threshold));
    }
}

/// The slots of a pool are those of its keys together.
pub proof fn law_slots_add_up(a: Seq<KeyView>, b: Seq<KeyView>, k: KeyView)
    ensures
        slots(seq![]) == 0,
        slots(seq![k]) == k.concurrency,
        slots(a + b) == slots(a) + slots(b),
    decreases b.len(),
{
    assert(seq![k].drop_last() =~= seq![]);
    assert(slots(seq![k].drop_last()) == 0);
    if b.len() > 0 {
        law_slots_add_up(a, b.drop_last(), k);
        assert((a + b).drop_last() =~= a + b.drop_last());
    } else {
        assert(a + b =~= a);
    }
}

/// The pool is healthy exactly if a key is up, or has its cooldown behind it.
pub proof fn law_healthy_means_a_key_is_up(p: PoolView, now: int)
    requires
        pool_ok(p),
    ensures
        any_up(all_seen(p, now)) <==> exists|i: int|
            0 <= i < p.states.len() && ((#[trigger] p.states[i]).health.state == State::Up || (
            p.states[i].health.state == State::Cooldown && p.states[i].health.until->0 <= now)),
{
    let q = all_seen(p, now);
    if any_up(q) {
        let i = choose|i: int| 0 <= i < q.states.len() && #[trigger] is_up(q, i);
        assert(key_ok(p.states[i]));
    }
    if exists|i: int|
        0 <= i < p.states.len() && ((#[trigger] p.states[i]).health.state == State::Up || (
        p.states[i].health.state == State::Cooldown && p.states[i].health.until->0 <= now)) {
        let i = choose|i: int|
            0 <= i < p.states.len() && ((#[trigger] p.states[i]).health.state == State::Up || (
            p.states[i].health.state == State::Cooldown && p.states[i].health.until->0 <= now));
        assert(key_ok(p.states[i]));
        assert(is_up(q, i));
    }
}

/// A key starts out up and idle, with a clean record and at least one slot.
pub proof fn law_keys_start_clean(concurrency: int, waiter_cap: int)
    ensures
        ({
            let k = fresh_key(concurrency, waiter_cap);
            &&& k.held == 0
            &&& k.waiters == 0
            &&& k.waiter_cap == waiter_cap
            &&& k.concurrency == if concurrency < 1 {
                1
            } else {
                concurrency
            }
            &&& k.health.state == State::Up
            &&& k.health.until is None
            &&& k.health.strikes == 0
            &&& k.health.fails == 0
            &&& k.health.successes == 0
            &&& k.health.last_error is None
        }),
{
}

/// A slot given back is one fewer in use on its key, and changes nothing else;
/// so is a place in a queue.
pub proof fn law_giving_back_is_one(p: PoolView, key: int, other: int)
    requires
        0 <= key < p.states.len(),
        0 <= other < p.states.len(),
    ensures
        p.states[key].held > 0 ==> freed(p, key).states[key].held == p.states[key].held - 1,
        p.states[key].waiters > 0 ==> parted(p, key).states[key].waiters
            == p.states[key].waiters - 1,
        freed(p, key).states[other].waiters == p.states[other].waiters,
        parted(p, key).states[other].held == p.states[other].held,
        freed(p, key).states[other].health == p.states[other].health,
        parted(p, key).states[other].health == p.states[other].health,
        other != key ==> freed(p, key).states[other] == p.states[other],
        other != key ==> parted(p, key).states[other] == p.states[other],
        freed(p, key) == (PoolView { states: freed(p, key).states, ..p }),
        parted(p, key) == (PoolView { states: parted(p, key).states, ..p }),
{
}

// ---------------------------------------------------------------------------
// Selection in full
// ---------------------------------------------------------------------------

/// The candidates are the keys that are up, whatever their load and their
/// quota, and each is listed once.
pub proof fn law_candidates_are_the_keys_that_are_up(
    p: PoolView,
    tried: Seq<usize>,
    r: Seq<usize>,
    key: usize,
)
    requires
        pool_ok(p),
        is_ranking(p, tried, r),
    ensures
        r.contains(key) <==> key < p.states.len() && p.states[key as int].health.state
            == State::Up,
        forall|i: int, j: int| 0 <= i < j < r.len() ==> #[trigger] r[i] != #[trigger] r[j],
{
    if r.contains(key) {
        let i = choose|i: int| 0 <= i < r.len() && r[i] == key;
        assert(is_up(p, r[i] as int));
    }
    if key < p.states.len() && p.states[key as int].health.state == State::Up {
        assert(is_up(p, key as int));
    }
    assert forall|i: int, j: int| 0 <= i < j < r.len() implies #[trigger] r[i]
        != #[trigger] r[j] by {
        if r[i] == r[j] {
            assert(preferred(p, tried, r[i] as int, r[j] as int));
            law_preference_is_total(p, tried, r[i] as int, r[i] as int, r[i] as int);
        }
    }
}

/// A slot is granted on a key that the request has been on only where no other
/// could serve, and on one that is over quota only where none tried alike and
/// under quota could.
pub proof fn law_grants_prefer_untried_and_under_quota(
    p: PoolView,
    tried: Seq<usize>,
    timeout: int,
    id: Option<u64>,
    now: int,
    other: int,
)
    requires
        pool_ok(p),
        timeout >= 0,
        admitted(p, tried, timeout, id, now).1 is Granted,
        could_serve(p, other, now),
    ensures
        ({
            let key = admitted(p, tried, timeout, id, now).1->key;
            &&& tried.contains(key as usize) ==> tried.contains(other as usize)
            &&& tried.contains(key as usize) == tried.contains(other as usize) && p.threshold != 0
                && p.over.contains(key) ==> p.over.contains(other)
        }),
{
    let q = all_seen(p, now);
    let key = admitted(p, tried, timeout, id, now).1->key;
    law_admission(p, tried, timeout, id, now);
    lemma_could_serve(p, other, now);
    if key != other {
        assert(preferred(q, tried, key, other));
    }
}

/// A request waits at the key that comes first among those that are up: it has
/// been on all of the others if on this one, none tried alike is under quota if
/// this one is over, and none alike in both is less busy.
pub proof fn law_waits_at_the_first_key(
    p: PoolView,
    tried: Seq<usize>,
    timeout: int,
    id: Option<u64>,
    now: int,
    other: int,
)
    requires
        pool_ok(p),
        timeout >= 0,
        admitted(p, tried, timeout, id, now).1 is Queued,
        0 <= other < p.states.len(),
        refreshed(p.states[other].health, now).state == State::Up,
    ensures
        ({
            let key = admitted(p, tried, timeout, id, now).1->ticket.key;
            &&& tried.contains(key as usize) ==> tried.contains(other as usize)
            &&& tried.contains(key as usize) == tried.contains(other as usize) && p.threshold != 0
                && p.over.contains(key) ==> p.over.contains(other)
            &&& ranked_by_load(p, tried, key, other) ==> no_busier(p, key, other)
        }),
{
    let q = all_seen(p, now);
    let key = admitted(p, tried, timeout, id, now).1->ticket.key;
    law_admission(p, tried, timeout, id, now);
    lemma_all_seen_ok(p, now);
    assert(key_ok(p.states[key]));
    assert(eligible(q, false, other));
    if key != other {
        assert(preferred(q, tried, key, other));
        if ranked_by_load(p, tried, key, other) {
            lemma_no_busier(q, tried, key, other);
        }
    } else {
        let c = p.states[key].concurrency;
        assert(c * c > 0) by (nonlinear_arith)
            requires
                c >= 1,
        ;
    }
}

/// Asking for a slot of one key: nobody joins a full queue, a free slot is
/// taken at once, and else the request waits, if it may wait at all.
pub proof fn law_waiting_for_one_key(
    p: PoolView,
    key: int,
    timeout: int,
    id: Option<u64>,
    now: int,
)
    requires
        0 <= key < p.states.len(),
    ensures
        ({
            let k = p.states[key];
            let (q, o) = waited(p, key, timeout, id, now);
            if k.waiters >= k.waiter_cap {
                &&& q == p
                &&& o == (Outcome::Rejected {
                    status: 429,
                    reason: QUEUE_FULL@,
                    retry_after: Some(2int),
                })
            } else if k.held < k.concurrency {
                &&& o == Outcome::Granted { key }
                &&& q.states[key].held == k.held + 1
                &&& q.states[key].waiters == k.waiters
            } else if timeout == 0 {
                &&& q == p
                &&& o == (Outcome::Rejected {
                    status: 429,
                    reason: QUEUED_TOO_LONG@,
                    retry_after: Some(1int),
                })
            } else {
                &&& o == (Outcome::Queued {
                    ticket: TicketView { key, deadline: now + timeout, id },
                })
                &&& q.states[key].held == k.held
                &&& q.states[key].waiters == k.waiters + 1
            }
        }),
{
}

/// Time runs out and does not run backwards.
pub proof fn law_time_left(t: int, now: int)
    ensures
        time_to(t, now) >= 0,
        t >= now ==> now + time_to(t, now) == t,
        t <= now ==> time_to(t, now) == 0,
{
}

/// Looking at the keys one after the other changes nothing that time has not.
pub proof fn law_looking_changes_nothing(p: PoolView, now: int, i: int)
    requires
        0 <= i < p.states.len(),
    ensures
        refreshed(seen_until_up(p, now).states[i].health, now) == refreshed(
            p.states[i].health,
            now,
        ),
        seen_until_up(p, now).states[i].held == p.states[i].held,
        seen_until_up(p, now).states[i].waiters == p.states[i].waiters,
        seen_until_up(p, now).states.len() == p.states.len(),
        seen_until_up(p, now) == (PoolView { states: seen_until_up(p, now).states, ..p }),
{
}

/// A threshold of so many percent demotes a key from that many percent of its
/// session on.
pub proof fn law_thresholds_are_percent(p: PoolView, pct: int, rows: Seq<KeyUsage>, key: int)
    requires
        1 <= pct,
        0 <= key < 64,
    ensures
        ({
            let q = with_threshold(p, pct);
            let r = PoolView { over: over_threshold(rows, q.threshold), ..q };
            &&& q == (PoolView { threshold: q.threshold, ..p })
            &&& over_quota(r, key) <==> exists|j: int|
                0 <= j < rows.len() && (#[trigger] rows[j]).index == key && rows[j].session is Some
                    && rows[j].session->0.permille >= pct * 10
        }),
        !over_quota(with_threshold(p, 0), key),
{
    law_figures_demote(rows, with_threshold(p, pct).threshold, key);
}

/// What a pool goes by: three strikes, a minute, a quarter of a second, and
/// room for 4096 pins.
pub proof fn law_limits_of_a_pool()
    ensures
        STRIKES_TO_COOL == 3,
        COOLDOWN_429 == 60_000_000_000,
        WAIT_CHUNK == 250_000_000,
        AFFINITY_CAP == 4096,
{
}

} // verus!
