use ollamux::pool::{
    Admission, KeyInfo, Permit, Pool, Reject, State, Ticket, WaitRejected, ALL_COOLING, ALL_DEAD,
    COOLDOWN_429, NO_KEYS, QUEUED_TOO_LONG, QUEUE_FULL,
};
use ollamux::usage::{KeyUsage, Share, UsageSnapshot};

const MS: u64 = 1_000_000;
const SEC: u64 = 1_000_000_000;

fn pool(n: u32, conc: u32) -> Pool {
    Pool::new(
        (0..n).map(|i| (format!("omk-test{i:04}"), conc)).collect(),
        32,
        false,
    )
}

fn two_key_pool() -> Pool {
    Pool::new(
        vec![
            ("omk-quota-key1".to_string(), 4),
            ("omk-quota-key2".to_string(), 4),
        ],
        4,
        false,
    )
}

fn share(f: f64) -> Share {
    Share {
        raw: f.to_bits(),
        permille: (f * 1000.0).clamp(0.0, 1000.0) as u32,
        pct_x10: (f.clamp(0.0, 1.0) * 1000.0).round() as u32,
    }
}

fn usage_snap(entries: &[(usize, Option<f64>)]) -> UsageSnapshot {
    UsageSnapshot::for_test(
        entries
            .iter()
            .map(|&(i, session)| KeyUsage::for_test(i, session.map(share)))
            .collect(),
        0,
    )
}

fn info_of(p: &mut Pool, key: usize, now: u64) -> KeyInfo {
    p.info(now).remove(key)
}

fn in_use(p: &mut Pool, key: usize) -> u32 {
    info_of(p, key, 0).in_use
}

/// Drives an admission to its end: `now` runs until there is a slot or none.
fn settle_wait(
    p: &mut Pool,
    first: Result<Admission, Reject>,
    now: &mut u64,
) -> Result<(Permit, usize), Reject> {
    let mut step = first;
    loop {
        match step {
            Ok(Admission::Granted(permit)) => {
                let key = permit.key();
                return Ok((permit, key));
            }
            Ok(Admission::Queued(ticket)) => {
                *now += ticket.pause(*now);
                step = p.resume(ticket, *now);
            }
            Err(reject) => return Err(reject),
        }
    }
}

fn admit_now(p: &mut Pool, timeout: u64, now: &mut u64) -> Result<(Permit, usize), Reject> {
    let first = p.admit_one(timeout, *now);
    settle_wait(p, first, now)
}

fn admit_affine(
    p: &mut Pool,
    timeout: u64,
    id: Option<u64>,
    now: &mut u64,
) -> Result<(Permit, usize), Reject> {
    let first = p.admit_affine(timeout, id, *now);
    settle_wait(p, first, now)
}

fn queued(r: Result<Admission, WaitRejected>) -> Ticket {
    match r {
        Ok(Admission::Queued(ticket)) => ticket,
        other => panic!("expected a place in the queue, got {other:?}"),
    }
}

#[test]
fn try_acquire_is_bounded_and_raii_releases() {
    let mut p = pool(1, 2);
    let a = p.try_acquire(0).unwrap();
    let b = p.try_acquire(0).unwrap();
    assert!(p.try_acquire(0).is_none());
    assert_eq!(in_use(&mut p, 0), 2);
    p.release(b);
    assert_eq!(in_use(&mut p, 0), 1);
    assert!(p.try_acquire(0).is_some());
    p.release(a);
}

#[test]
fn least_loaded_candidate_wins() {
    let mut p = pool(2, 2);
    let _a = p.try_acquire(0).unwrap(); // key 0 half busy
    assert_eq!(p.candidates(0)[0], 1); // key 1 free
}

#[test]
fn cooldown_expires_lazily() {
    let mut p = pool(1, 1);
    p.mark_cooldown(0, 10 * MS, "test", 0);
    assert_eq!(p.state_of(0, 0), State::Cooldown);
    assert_eq!(p.state_of(0, 20 * MS), State::Up);
}

#[test]
fn cooldown_ends_on_the_instant() {
    let mut p = pool(1, 1);
    p.mark_cooldown(0, 10, "test", 100);
    assert_eq!(p.state_of(0, 109), State::Cooldown);
    assert_eq!(p.state_of(0, 110), State::Up);
    // A look at an expired cooldown ends it, also for an earlier clock.
    assert_eq!(p.state_of(0, 100), State::Up);
}

#[test]
fn strikes_lead_to_cooldown_and_success_resets() {
    let mut p = pool(1, 1);
    p.mark_strike(0, "e1", 0);
    p.mark_strike(0, "e2", 0);
    assert_eq!(p.state_of(0, 0), State::Up);
    p.mark_strike(0, "e3", 0);
    assert_eq!(p.state_of(0, 0), State::Cooldown);
    assert_eq!(p.next_retry_in(0), Some(COOLDOWN_429));
    // A success clears everything.
    p.settle(0, true);
    let h = info_of(&mut p, 0, 20 * MS);
    assert_eq!(h.strikes, 0);
    assert_eq!(h.state, State::Up);
    assert_eq!(h.successes, 1);
    assert_eq!(h.last_error.as_deref(), Some("e3"));
}

#[test]
fn dead_key_is_excluded_until_restart() {
    let mut p = pool(2, 1);
    p.mark_dead(0, "401");
    assert_eq!(p.state_of(0, 0), State::Dead);
    // Candidates skip it even after time passes.
    assert_eq!(p.candidates(5 * MS), vec![1]);
}

#[test]
fn dead_key_is_not_revived() {
    let mut p = pool(2, 1);
    p.mark_dead(0, "401");
    p.settle(0, true);
    assert_eq!(p.state_of(0, 0), State::Dead);
    p.mark_cooldown(0, 10, "429", 0);
    assert_eq!(p.state_of(0, SEC), State::Dead);
    for _ in 0..3 {
        p.mark_strike(0, "500", 0);
    }
    assert_eq!(p.state_of(0, 120 * SEC), State::Dead);
    assert_eq!(p.next_retry_in(0), None);
}

#[test]
fn admit_bounded_by_concurrency_then_waits() {
    let mut p = pool(1, 1);
    let mut now = 0;
    let (permit, key) = admit_now(&mut p, 50 * MS, &mut now).unwrap();
    assert_eq!(key, 0);
    // A second one finds no free slot and must time out.
    let err = match admit_now(&mut p, 50 * MS, &mut now) {
        Err(e) => e,
        Ok(_) => panic!("second admit should be rejected (no free slot)"),
    };
    assert_eq!(err.status, 429);
    assert_eq!(err.reason, QUEUED_TOO_LONG);
    assert_eq!(err.retry_after_s, Some(1));
    assert_eq!(now, 50 * MS);
    p.release(permit);
    // Slot free again.
    assert!(admit_now(&mut p, 50 * MS, &mut now).is_ok());
}

#[test]
fn admit_all_dead_is_403_all_cooling_is_429() {
    let mut p = pool(2, 1);
    let mut now = 0;
    p.mark_dead(0, "x");
    p.mark_dead(1, "x");
    let err = match admit_now(&mut p, 10 * MS, &mut now) {
        Err(e) => e,
        Ok(_) => panic!("all-dead pool must reject"),
    };
    assert_eq!(err.status, 403);
    assert_eq!(err.reason, ALL_DEAD);
    assert_eq!(err.retry_after_s, None);

    let mut p = pool(1, 1);
    p.mark_cooldown(0, 500 * MS, "429", now);
    let err = match admit_now(&mut p, 10 * MS, &mut now) {
        Err(e) => e,
        Ok(_) => panic!("all-cooling pool must reject"),
    };
    assert_eq!(err.status, 429);
    assert_eq!(err.reason, ALL_COOLING);
    assert!(err.retry_after_s.unwrap() >= 1);
}

#[test]
fn cooling_pool_names_the_soonest_recovery() {
    let mut p = pool(3, 1);
    p.mark_cooldown(0, 90 * SEC, "429", 0);
    p.mark_cooldown(1, 7 * SEC + 999 * MS, "429", 0);
    p.mark_dead(2, "401");
    assert_eq!(p.next_retry_in(SEC), Some(6 * SEC + 999 * MS));
    let err = p.admit_one(0, SEC).unwrap_err();
    assert_eq!(err.retry_after_s, Some(6));
    assert!(!p.healthy_any(SEC));
    assert!(p.healthy_any(8 * SEC));
}

#[test]
fn empty_pool_is_503() {
    let mut p = pool(0, 1);
    assert!(p.is_empty());
    let err = p.admit_one(0, 0).unwrap_err();
    assert_eq!(err.status, 503);
    assert_eq!(err.reason, NO_KEYS);
    assert_eq!(err.retry_after_s, None);
    assert_eq!(p.candidates(0), Vec::<usize>::new());
    assert!(!p.healthy_any(0));
}

#[test]
fn acquire_on_respects_waiter_cap() {
    // Waiters that fit may wait; excess ones are turned away at once.
    let mut p = Pool::new(vec![("omk-cap-test".to_string(), 1)], 2, false);
    let _slot = p.try_acquire(0).unwrap(); // hold the only slot

    let w1 = queued(p.acquire_on(0, 200 * MS, 0));
    let w2 = queued(p.acquire_on(0, 200 * MS, 0));
    let w3 = p.acquire_on(0, 30 * MS, 30 * MS);
    assert!(
        matches!(w3, Err(WaitRejected::Full)),
        "excess waiter must be rejected"
    );
    assert_eq!(info_of(&mut p, 0, 0).waiters, 2);
    // Both time out at their deadline.
    for ticket in [w1, w2] {
        assert_eq!(ticket.pause(150 * MS), 50 * MS);
        let err = p.resume(ticket, 200 * MS).unwrap_err();
        assert_eq!(err.status, 429);
    }
    assert_eq!(info_of(&mut p, 0, 0).waiters, 0, "no waiter leaks");
}

#[test]
fn full_queue_is_429() {
    let mut p = Pool::new(vec![("omk-cap-test".to_string(), 1)], 0, false);
    let _slot = p.try_acquire(0).unwrap();
    let err = p.admit_one(SEC, 0).unwrap_err();
    assert_eq!(err.status, 429);
    assert_eq!(err.reason, QUEUE_FULL);
    assert_eq!(err.retry_after_s, Some(2));
    assert!(matches!(p.acquire_on(0, 0, 0), Err(WaitRejected::Full)));
}

#[test]
fn waiters_get_the_slot_that_comes_free() {
    let mut p = pool(1, 1);
    let slot = p.try_acquire(0).unwrap();
    let ticket = queued(p.acquire_on(0, 10 * SEC, 0));
    // Long waits are cut up.
    assert_eq!(ticket.pause(0), 250 * MS);
    let ticket = match p.resume(ticket, 250 * MS) {
        Ok(Admission::Queued(ticket)) => ticket,
        other => panic!("still no slot, got {other:?}"),
    };
    p.release(slot);
    let granted = match p.resume(ticket, 300 * MS) {
        Ok(Admission::Granted(permit)) => permit,
        other => panic!("slot is free, got {other:?}"),
    };
    assert_eq!(granted.key(), 0);
    let info = info_of(&mut p, 0, 0);
    assert_eq!((info.in_use, info.waiters), (1, 0));
    assert!(matches!(p.acquire_on(0, 0, 0), Err(WaitRejected::Timeout)));
}

#[test]
fn leaving_gives_the_place_back() {
    let mut p = pool(2, 1);
    let _slot = p.try_acquire(0).unwrap();
    let ticket = queued(p.acquire_on(0, SEC, 0));
    assert_eq!(info_of(&mut p, 0, 0).waiters, 1);
    p.leave(ticket);
    let info = info_of(&mut p, 0, 0);
    assert_eq!((info.waiters, info.in_use), (0, 1));
}

#[test]
fn a_free_slot_is_granted_however_long_the_wait_might_be() {
    let mut p = pool(3, 1);
    let _slot = p.try_acquire(0).unwrap();
    let cands = p.candidates(1);
    match p.admit_one(u64::MAX, 1) {
        Ok(Admission::Granted(permit)) => {
            assert_eq!(permit.key(), cands[0]);
            assert_eq!(in_use(&mut p, permit.key()), 1);
        }
        other => panic!("expected a slot, got {other:?}"),
    }
    match p.admit_affine(u64::MAX, Some(3), 1) {
        Ok(Admission::Granted(permit)) => {
            assert_eq!(permit.key(), cands[1]);
            assert_eq!(p.pinned_key(3), Some(cands[1]));
        }
        other => panic!("expected a slot, got {other:?}"),
    }
    // All slots are taken: a wait may end beyond the clock.
    match p.admit_one(u64::MAX, 1) {
        Ok(Admission::Queued(ticket)) => {
            assert_eq!(ticket.pause(u64::MAX), 1);
            p.leave(ticket);
        }
        other => panic!("expected a place in the queue, got {other:?}"),
    }
    // And a refused request changes no pin.
    assert!(p.admit_affine(0, Some(4), 1).is_err());
    assert_eq!(p.pinned_key(4), None);
    assert_eq!(p.pinned_key(3), Some(cands[1]));
}

#[test]
fn concurrent_admit_respects_total_slots() {
    // Sixteen requests on three slots, each released in its turn.
    let mut p = pool(1, 3);
    let mut now = 0;
    let mut held = Vec::new();
    let mut ok = 0;
    for _ in 0..16 {
        if held.len() == 3 {
            assert!(p.try_acquire(0).is_none());
            p.release(held.remove(0));
        }
        if let Ok((permit, _)) = admit_now(&mut p, 500 * MS, &mut now) {
            held.push(permit);
            ok += 1;
        }
    }
    for permit in held {
        p.release(permit);
    }
    assert!(
        ok >= 8,
        "most requests should eventually get a slot (got {ok})"
    );
    assert_eq!(in_use(&mut p, 0), 0, "all permits released");
}

#[test]
fn concurrent_permits_respect_limit() {
    let mut p = pool(1, 3);
    let mut now = 0;
    for _ in 0..16 {
        let (permit, _) = admit_now(&mut p, 500 * MS, &mut now).unwrap();
        assert!(in_use(&mut p, 0) <= 3);
        p.release(permit);
        p.settle(0, true);
    }
    assert_eq!(in_use(&mut p, 0), 0);
    assert!(info_of(&mut p, 0, 0).successes >= 16);
}

#[test]
fn admission_does_not_reset_strikes() {
    let mut p = pool(1, 8);
    let mut now = 0;
    let (_permit, _) = admit_now(&mut p, 100 * MS, &mut now).unwrap();
    p.mark_strike(0, "boom1", now);
    let (_permit2, _) = admit_now(&mut p, 100 * MS, &mut now).unwrap();
    p.mark_strike(0, "boom2", now);
    assert_eq!(p.state_of(0, now), State::Up);
    // Admission between strikes; strikes must still be 2.
    let (_permit3, _) = admit_now(&mut p, 100 * MS, &mut now).unwrap();
    assert_eq!(info_of(&mut p, 0, now).strikes, 2);
    p.mark_strike(0, "boom3", now);
    assert_eq!(
        p.state_of(0, now),
        State::Cooldown,
        "3 strikes must cool the key"
    );
    let info = info_of(&mut p, 0, now);
    assert_eq!(info.strikes, 0);
    assert_eq!(info.successes, 0);
    assert_eq!(info.fails, 4);
    assert_eq!(info.last_error.as_deref(), Some("boom3"));
}

// ----- quota-aware routing -----

#[test]
fn usage_publish_is_health_read_only() {
    let mut p = two_key_pool();
    p.publish_usage(&usage_snap(&[(0, Some(0.99)), (1, Some(0.01))]));
    // Usage alone must never mark, cool or settle anything.
    assert_eq!(p.state_of(0, 0), State::Up);
    assert_eq!(p.state_of(1, 0), State::Up);
    assert_eq!(info_of(&mut p, 0, 0).fails, 0);
    assert_eq!(info_of(&mut p, 1, 0).successes, 0);
}

#[test]
fn over_threshold_key_demotes_but_never_excluded() {
    let mut p = two_key_pool();
    p.set_usage_threshold(80);
    assert_eq!(p.usage_threshold_x10(), 800);
    // Key 0 fresh and idle must win over an over-quota key even if the
    // over-quota key has had more success (tie-break).
    p.publish_usage(&usage_snap(&[(0, Some(0.10)), (1, Some(0.95))]));
    p.settle(1, true); // ties favor key 1
    assert_eq!(p.candidates(0), vec![0, 1], "over-quota key sorts last");

    // Only the over-quota key is selectable: it is demoted, never excluded.
    p.mark_cooldown(0, 60 * SEC, "test", 0);
    assert_eq!(
        p.candidates(0),
        vec![1],
        "over-quota key still serves when alone"
    );

    // Data absent: nobody is demoted.
    p.publish_usage(&usage_snap(&[(0, None), (1, None)]));
    p.mark_cooldown(0, 0, "expired", 0);
    let cands = p.candidates(0);
    assert_eq!(cands.len(), 2, "absent data excludes nobody");
    assert!(cands.contains(&0) && cands.contains(&1));
}

#[test]
fn threshold_disabled_ignores_usage_data() {
    let mut p = two_key_pool();
    // No threshold: publishing an all-over-quota snapshot must not change
    // ordering at all.
    p.publish_usage(&usage_snap(&[(0, Some(1.0)), (1, Some(1.0))]));
    p.settle(1, true);
    // Both keys load 0: the tie-break decides; no exclusion.
    assert_eq!(p.candidates(0).len(), 2);
    // And nobody is demoted.
    p.set_usage_threshold(80);
    assert!(!p.is_over_quota(0) && !p.is_over_quota(1));
}

#[test]
fn turning_the_threshold_off_restores_the_order() {
    let mut p = Pool::new(
        vec![("a".to_string(), 4), ("b".to_string(), 4)],
        4,
        false,
    );
    p.set_usage_threshold(80);
    p.publish_usage(&usage_snap(&[(0, Some(0.95)), (1, Some(0.10))]));
    assert_eq!(p.candidates(0), vec![1, 0]);
    assert!(p.is_over_quota(0));
    p.set_usage_threshold(0);
    assert!(!p.is_over_quota(0));
    assert_eq!(p.candidates(0), vec![0, 1]);
    match p.admit_one(0, 0) {
        Ok(Admission::Granted(permit)) => assert_eq!(permit.key(), 0),
        other => panic!("expected a slot, got {other:?}"),
    }
}

#[test]
fn usage_briefs_render_and_over_quota_flag() {
    let mut p = two_key_pool();
    p.set_usage_threshold(80);
    // Failure rows (no numbers) have no figures.
    let snap = usage_snap(&[(0, None), (1, Some(0.812))]);
    let briefs = p.usage_briefs(&snap);
    assert!(briefs[0].is_none());
    let b = briefs[1].as_ref().unwrap();
    assert_eq!(b.session.map(|s| f64::from_bits(s.raw)), Some(0.812));
    assert_eq!(b.session_pct, Some(812));
    assert!(b.over_quota, "81.2% >= 80% threshold");
}

#[test]
fn usage_briefs_never_fabricate_missing_windows() {
    let p = two_key_pool();
    // Session-only row: weekly must stay absent, not copy session.
    let mut row = usage_snap(&[(0, None)]).keys.remove(0);
    row.session = Some(share(0.4));
    row.weekly = None;
    row.ok = true;
    let briefs = p.usage_briefs(&UsageSnapshot::for_test(vec![row], 0));
    let b = briefs[0].as_ref().unwrap();
    assert_eq!(b.session, Some(share(0.4)));
    assert_eq!(b.weekly, None);
    assert_eq!(b.weekly_pct, None);
    // Weekly-only row: symmetric.
    let mut row = usage_snap(&[(0, None)]).keys.remove(0);
    row.weekly = Some(share(0.2));
    row.ok = true;
    let briefs = p.usage_briefs(&UsageSnapshot::for_test(vec![row], 0));
    let b = briefs[0].as_ref().unwrap();
    assert_eq!(b.session, None);
    assert_eq!(b.weekly, Some(share(0.2)));
    assert!(!b.over_quota, "session absent: never over quota");
}

#[test]
fn usage_is_joined_by_position() {
    let mut p = two_key_pool();
    p.set_usage_threshold(50);
    let rows = p.info_with_usage(&usage_snap(&[(0, Some(0.5))]), 0);
    assert_eq!(rows.len(), 2, "a short snapshot truncates nothing");
    assert_eq!(rows[0].0.suffix, "key1");
    let brief = rows[0].1.unwrap();
    assert_eq!(brief.session_pct, Some(500));
    assert!(brief.over_quota, "at the threshold is over it");
    assert_eq!(rows[1].0.index, 1);
    assert!(rows[1].1.is_none());
}

#[test]
fn over_quota_mask_ignores_keys_beyond_64_bits() {
    // 65 keys; the last one is over quota, and has no place in the mask.
    let keys: Vec<(String, u32)> = (0..65).map(|i| (format!("omk-wide{i:04}"), 2)).collect();
    let mut p = Pool::new(keys, 4, false);
    p.set_usage_threshold(80);
    let entries: Vec<(usize, Option<f64>)> = (0..65)
        .map(|i| {
            if i == 64 {
                (i, Some(0.99))
            } else {
                (i, Some(0.10))
            }
        })
        .collect();
    p.publish_usage(&usage_snap(&entries));
    // No aliasing: key 0 must be untouched even though key 64 is over quota.
    for key in 0..65 {
        assert!(!p.is_over_quota(key), "no over-quota key below 64");
    }
    let cands = p.candidates(0);
    assert_eq!(cands.len(), 65);
    assert_eq!(cands[0], 0, "key 0 must not inherit key 64's demotion");
    // The highest key that has a place is demoted like any other.
    p.publish_usage(&usage_snap(&[(63, Some(0.9))]));
    assert!(p.is_over_quota(63));
    assert_eq!(*p.candidates(0).last().unwrap(), 63);
}

// ----- prompt-cache affinity -----

#[test]
fn pin_usable_mirrors_admit_affine_usability() {
    let mut p = pool(2, 1);
    let mut now = 0;
    // No pin yet: not usable.
    assert!(!p.pin_usable(5, now));
    let (permit, key) = admit_affine(&mut p, 50 * MS, Some(5), &mut now).unwrap();
    // The pinned key is now full.
    if key == 0 {
        assert!(!p.pin_usable(5, now), "pinned key full: not usable");
    }
    p.release(permit);
    assert!(p.pin_usable(5, now), "pin up, with a free slot: usable");
    // Cooldown makes the pin unusable.
    p.mark_cooldown(key, 50 * MS, "test", now);
    assert!(!p.pin_usable(5, now), "cooling pinned key: not usable");
    // Dead makes the pin unusable.
    p.mark_dead(key, "test");
    assert!(!p.pin_usable(5, now), "dead pinned key: not usable");
}

#[test]
fn pin_usable_false_when_over_quota_or_disabled() {
    let mut p = two_key_pool();
    p.set_usage_threshold(80);
    p.publish_usage(&usage_snap(&[(0, Some(0.95)), (1, Some(0.10))]));
    p.pin(11, 0);
    assert!(p.is_over_quota(0));
    assert!(!p.pin_usable(11, 0), "over-quota pinned key: not usable");
    p.set_affinity_enabled(false);
    assert!(!p.pin_usable(11, 0), "affinity disabled: no usable pin");
    p.set_affinity_enabled(true);
    p.publish_usage(&usage_snap(&[(0, Some(0.10))]));
    assert!(p.pin_usable(11, 0), "back under quota and enabled: usable");
}

#[test]
fn affine_pin_hit_reuses_pinned_key() {
    let mut p = pool(2, 2);
    let mut now = 0;
    // First admission pins.
    let (permit, key) = admit_affine(&mut p, 50 * MS, Some(42), &mut now).unwrap();
    p.release(permit);
    // Second admission with the same identity must land on the same key.
    let (_permit2, key2) = admit_affine(&mut p, 50 * MS, Some(42), &mut now).unwrap();
    assert_eq!(key, key2, "same identity must pin to the same key");
    // A different identity is not pinned: load and tie-break decide.
    let (_p3, key3) = admit_affine(&mut p, 50 * MS, Some(43), &mut now).unwrap();
    assert_ne!(key3, key, "different identity must not inherit the pin");
}

#[test]
fn affine_falls_back_when_pinned_dead_or_cooling() {
    let mut p = pool(2, 1);
    let mut now = 0;
    let (a, key) = admit_affine(&mut p, 50 * MS, Some(7), &mut now).unwrap();
    p.release(a);
    p.mark_dead(key, "test 401");
    // Pinned key is dead: the survivor serves.
    let (b, key2) = admit_affine(&mut p, 50 * MS, Some(7), &mut now).unwrap();
    assert_ne!(key2, key, "dead pinned key must not be selected");
    // And the fallback re-pinned the identity to the survivor.
    p.release(b);
    let (_c, key3) = admit_affine(&mut p, 50 * MS, Some(7), &mut now).unwrap();
    assert_eq!(key2, key3, "fallback must re-pin to the serving key");

    // Same shape with a cooldown (recoverable, not dead).
    let mut p2 = pool(2, 1);
    let (d, k1) = admit_affine(&mut p2, 50 * MS, Some(9), &mut now).unwrap();
    p2.release(d);
    p2.mark_cooldown(k1, 500 * MS, "429", now);
    let (_e, k2) = admit_affine(&mut p2, 50 * MS, Some(9), &mut now).unwrap();
    assert_ne!(k2, k1, "cooling pinned key must not be selected");
}

#[test]
fn affine_falls_back_when_pinned_at_capacity() {
    let mut p = pool(2, 1);
    let mut now = 0;
    let (a, pinned) = admit_affine(&mut p, 50 * MS, Some(5), &mut now).unwrap();
    // Pinned key's only slot is held: the other key's free slot wins at once.
    let (b, other) = admit_affine(&mut p, 50 * MS, Some(5), &mut now).unwrap();
    assert_ne!(other, pinned, "full pinned key must fall through");
    assert_eq!(now, 0, "nobody waited");
    // Re-pin moved to the fallback key (admission-time pin).
    p.release(b);
    let (c, again) = admit_affine(&mut p, 50 * MS, Some(5), &mut now).unwrap();
    assert_eq!(again, other, "fallback re-pins the identity");
    p.release(c);
    p.release(a);
    // All free again: identity still points at the fallback key.
    let (_d, after) = admit_affine(&mut p, 50 * MS, Some(5), &mut now).unwrap();
    assert_eq!(after, other, "re-pin survives while the pin is valid");
}

#[test]
fn affine_respects_over_quota_demotion() {
    let mut p = two_key_pool();
    let mut now = 0;
    p.set_usage_threshold(80);
    p.publish_usage(&usage_snap(&[(0, Some(0.95)), (1, Some(0.10))]));
    // Pin to the over-quota key 0.
    p.pin(11, 0);
    assert!(p.is_over_quota(0));
    assert!(!p.is_over_quota(1));
    // Affinity never overrides quota-aware demotion.
    let (_a, key) = admit_affine(&mut p, 50 * MS, Some(11), &mut now).unwrap();
    assert_eq!(key, 1, "over-quota pin must fall through to fresh key");
    // With key 1 gone, the over-quota pinned key still serves.
    p.mark_dead(1, "test");
    let (_b, key2) = admit_affine(&mut p, 50 * MS, Some(11), &mut now).unwrap();
    assert_eq!(key2, 0, "over-quota key still serves when alone");
}

#[test]
fn affine_threshold_disabled_never_blocks_pin() {
    let mut p = two_key_pool();
    let mut now = 0;
    // No threshold: a pinned key must be used whatever its usage.
    p.publish_usage(&usage_snap(&[(0, Some(1.0)), (1, Some(0.0))]));
    assert!(!p.is_over_quota(0), "disabled threshold: never over quota");
    p.pin(3, 0);
    let (_a, key) = admit_affine(&mut p, 50 * MS, Some(3), &mut now).unwrap();
    assert_eq!(key, 0, "pin must hold without quota-aware routing");
}

#[test]
fn is_over_quota_ignores_keys_beyond_64_bits() {
    let keys: Vec<(String, u32)> = (0..65).map(|i| (format!("omk-aff{i:04}"), 2)).collect();
    let mut p = Pool::new(keys, 4, false);
    let mut now = 0;
    p.set_usage_threshold(80);
    let entries: Vec<(usize, Option<f64>)> = (0..65)
        .map(|i| (i, Some(if i == 64 { 0.99 } else { 0.10 })))
        .collect();
    p.publish_usage(&usage_snap(&entries));
    assert!(
        !p.is_over_quota(64),
        "index 64 has no mask bit: never over quota"
    );
    assert!(!p.is_over_quota(0));
    // And admission copes with a pinned high index.
    p.pin(1, 64);
    let (_a, k) = admit_affine(&mut p, 50 * MS, Some(1), &mut now).unwrap();
    assert_eq!(k, 64);
}

#[test]
fn affine_disabled_ignores_map() {
    let mut now = 0;
    let mut p = pool(2, 2);
    let (a, _key) = admit_affine(&mut p, 50 * MS, Some(21), &mut now).unwrap();
    p.release(a);
    p.set_affinity_enabled(false);
    assert!(!p.affinity_enabled());
    let mut p = pool(2, 1);
    let (a, _key) = admit_affine(&mut p, 50 * MS, Some(21), &mut now).unwrap();
    p.set_affinity_enabled(false);
    p.release(a);
    // Pin an identity to key 1 while key 0 is the natural pick, then disable
    // affinity: the natural pick must win.
    let mut p2 = two_key_pool();
    p2.pin(99, 1);
    p2.set_affinity_enabled(false);
    let (_c, natural) = admit_affine(&mut p2, 50 * MS, Some(99), &mut now).unwrap();
    assert_eq!(natural, 0, "disabled affinity: plain order wins");
}

#[test]
fn affine_concurrent_same_identity_respects_slots() {
    let mut p = pool(2, 1);
    let mut now = 0;
    let mut total = 0;
    for _ in 0..8 {
        let (permit, _key) = admit_affine(&mut p, 500 * MS, Some(77), &mut now)
            .unwrap_or_else(|e| panic!("admit failed: {e:?}"));
        p.release(permit);
        total += 1;
    }
    assert_eq!(total, 8);
    assert_eq!(in_use(&mut p, 0) + in_use(&mut p, 1), 0);
    // The identity points at one of the keys.
    assert!(p.pinned_key(77).is_some());
}

#[test]
fn unpin_only_affects_current_pin() {
    let mut p = pool(2, 1);
    p.pin(1, 0);
    p.unpin(1, 0);
    assert_eq!(p.pinned_key(1), None);
    // Re-pin; unpinning with the wrong key must not drop it.
    p.pin(1, 1);
    p.unpin(1, 0);
    assert_eq!(p.pinned_key(1), Some(1));
}

#[test]
fn affine_pin_survives_unrelated_identity_churn() {
    let mut p = pool(1, 1);
    for i in 0..50 {
        p.pin(i, 0);
    }
    assert!(p.pinned_key(49).is_some());
    assert!(
        p.pinned_key(0).is_some(),
        "well under cap: nothing evicted"
    );
    let pinned = (0..1000).filter(|&i| p.pinned_key(i).is_some()).count();
    assert_eq!(pinned, 50);
}

#[test]
fn queued_requests_pin_when_served() {
    let mut p = pool(1, 1);
    let slot = p.try_acquire(0).unwrap();
    let ticket = match p.admit_affine(SEC, Some(4), 0) {
        Ok(Admission::Queued(ticket)) => ticket,
        other => panic!("expected a wait, got {other:?}"),
    };
    assert_eq!(p.pinned_key(4), None);
    p.release(slot);
    assert!(matches!(
        p.resume(ticket, 1),
        Ok(Admission::Granted(_))
    ));
    assert_eq!(p.pinned_key(4), Some(0));
}

#[test]
fn retries_prefer_keys_not_tried() {
    let mut p = pool(3, 4);
    let tried = vec![0usize, 1];
    let (r, hit) = p.admit_affine_avoiding(&tried, 0, Some(8), 0);
    match r {
        Ok(Admission::Granted(permit)) => assert_eq!(permit.key(), 2),
        other => panic!("expected a slot, got {other:?}"),
    }
    assert!(!hit);
    // A pin to a tried key does not count, but a tried key still serves.
    p.pin(9, 0);
    p.mark_dead(2, "401");
    p.mark_dead(1, "401");
    let (r, hit) = p.admit_affine_avoiding(&tried, 0, Some(9), 0);
    assert!(matches!(r, Ok(Admission::Granted(ref permit)) if permit.key() == 0));
    assert!(!hit);
    let (_, hit) = p.admit_affine_avoiding(&Vec::new(), 0, Some(9), 0);
    assert!(hit);
}

#[test]
fn load_is_relative_to_concurrency() {
    let mut p = Pool::new(
        vec![("omk-small".to_string(), 2), ("omk-large".to_string(), 8)],
        4,
        false,
    );
    let _a = p.try_acquire(0).unwrap(); // 1 of 2
    let _b = p.try_acquire(1).unwrap();
    let _c = p.try_acquire(1).unwrap();
    let _d = p.try_acquire(1).unwrap(); // 3 of 8
    assert_eq!(p.candidates(0), vec![1, 0]);
    assert_eq!(p.total_slots(), 10);
    assert_eq!(p.total_keys(), 2);
    assert_eq!(p.len(), 2);
    assert_eq!(p.secret_of(1), "omk-large");
    assert_eq!(p.suffix_of(1), "arge");
    assert!(!p.verbose());
    assert!(p.can_count_failures(0, 2) && p.can_count_success(0));
    assert!(!p.strikes_out_next(0));
}

#[test]
fn ties_turn_with_the_last_success() {
    let mut p = pool(3, 1);
    assert_eq!(p.candidates(0), vec![0, 1, 2]);
    p.settle(1, true);
    assert_eq!(p.candidates(0), vec![2, 0, 1]);
    p.settle(2, false);
    assert_eq!(p.candidates(0), vec![2, 0, 1], "a failure turns nothing");
}

#[test]
fn info_shows_time_left() {
    let mut p = pool(1, 0);
    p.mark_cooldown(0, 1_500 * MS, "429: slow down", 10);
    let info = info_of(&mut p, 0, 10);
    assert_eq!(info.cooldown_left_s, Some(2));
    assert_eq!(info.concurrency, 1, "a key has one slot at least");
    assert_eq!(info.last_error.as_deref(), Some("429: slow down"));
    assert!(info.usage.is_none());
    let info = info_of(&mut p, 0, 2 * SEC);
    assert_eq!(info.cooldown_left_s, None);
    assert_eq!(info.state, State::Up);
    assert_eq!(info.fails, 1);
}
