use auth_guard::ratelimit::{
    auth_rate_limit_layer, AuthRateLimiter, IpAddr, LayerAction, HARD_MAX, SWEEP_INTERVAL,
    SWEEP_THRESHOLD,
};

const SECOND: u128 = 1_000_000_000;
const NOW: u128 = 5_000 * SECOND;

fn v4(bytes: [u8; 4]) -> IpAddr {
    IpAddr::V4(u32::from_be_bytes(bytes))
}

fn limiter(burst: u32, per_sec: f64) -> AuthRateLimiter {
    AuthRateLimiter::new(burst, per_sec.to_bits(), NOW)
}

#[test]
fn test_ratelimit_burst_then_throttle() {
    let mut limiter = limiter(3, 1.0);
    let addr = v4([127, 0, 0, 1]);
    let now = NOW;

    // The burst is spendable immediately.
    for _ in 0..3 {
        assert!(limiter.check(addr, now));
    }
    // And then we are throttled.
    assert!(!limiter.check(addr, now));
}

#[test]
fn test_ratelimit_refills_over_time() {
    let mut limiter = limiter(2, 1.0);
    let addr = v4([127, 0, 0, 1]);
    let now = NOW;

    assert!(limiter.check(addr, now));
    assert!(limiter.check(addr, now));
    assert!(!limiter.check(addr, now));

    // One second later, one token has refilled - but only one.
    let later = now + SECOND;
    assert!(limiter.check(addr, later));
    assert!(!limiter.check(addr, later));
}

#[test]
fn test_ratelimit_refill_caps_at_burst() {
    let mut limiter = limiter(2, 1.0);
    let addr = v4([127, 0, 0, 1]);
    let now = NOW;

    // A long idle period must not accrue more than the burst.
    let later = now + 3600 * SECOND;
    assert!(limiter.check(addr, later));
    assert!(limiter.check(addr, later));
    assert!(!limiter.check(addr, later));
}

#[test]
fn test_ratelimit_is_per_source() {
    let mut limiter = limiter(1, 1.0);
    let a = v4([127, 0, 0, 1]);
    let b = v4([127, 0, 0, 2]);
    let now = NOW;

    assert!(limiter.check(a, now));
    assert!(!limiter.check(a, now));
    // b has its own budget and is unaffected by a exhausting theirs.
    assert!(limiter.check(b, now));
}

/// Fill past the sweep threshold, one request from each of many distinct sources.
fn fill_past_threshold(limiter: &mut AuthRateLimiter, now: u128) {
    for i in 0..=SWEEP_THRESHOLD {
        let addr = v4([10, (i >> 16) as u8, (i >> 8) as u8, i as u8]);
        assert!(limiter.check(addr, now));
    }
}

#[test]
fn test_ratelimit_sweeps_refilled_entries() {
    let mut limiter = limiter(1, 1.0);
    let now = NOW;

    fill_past_threshold(&mut limiter, now);
    assert!(limiter.source_count() > SWEEP_THRESHOLD);

    // Once those buckets have refilled they carry no state, so a later request reclaims them.
    let later = now + SWEEP_INTERVAL + SECOND;
    let fresh = v4([192, 0, 2, 1]);
    assert!(limiter.check(fresh, later));
    assert_eq!(limiter.source_count(), 1);
}

/// A prober rotating through fresh addresses must not accumulate an entry per address seen.
#[test]
fn test_ratelimit_bounded_under_address_rotation() {
    const ROUNDS: usize = 10;
    const PER_ROUND: usize = 3000;

    let mut limiter = limiter(1, 1.0);
    let start = NOW;

    for round in 0..ROUNDS {
        // Each round is a full sweep interval later, with an entirely new set of sources.
        let at = start + (SWEEP_INTERVAL + SECOND) * (round as u128);
        for i in 0..PER_ROUND {
            let addr = v4([10, round as u8, (i >> 8) as u8, i as u8]);
            limiter.check(addr, at);
        }
    }

    let bound = SWEEP_THRESHOLD + PER_ROUND;
    assert!(
        limiter.source_count() <= bound,
        "table grew with address churn: {} entries (bound {}) after {} rounds of {}",
        limiter.source_count(),
        bound,
        ROUNDS,
        PER_ROUND
    );
}

/// A zero burst would otherwise deny every authentication attempt on the server.
#[test]
fn test_ratelimit_rejects_lockout_config() {
    let addr = v4([127, 0, 0, 1]);
    let now = NOW;

    assert!(limiter(0, 1.0).check(addr, now));

    for bad_rate in [0.0, -1.0, f64::NAN, f64::INFINITY] {
        let mut limiter = limiter(1, bad_rate);
        assert!(
            limiter.check(addr, now),
            "rate {bad_rate} denied first request"
        );
        // And it must still refill rather than latching shut.
        assert!(limiter.check(addr, now + 10 * SECOND));
    }
}

#[test]
fn settings_are_clamped() {
    let made = limiter(0, f64::NEG_INFINITY);
    assert_eq!(made.burst(), 1.0f64.to_bits());
    assert_eq!(made.per_sec(), 2.0f64.to_bits());
    for rate in [-0.0, -f64::NAN, f64::NAN, f64::MIN] {
        assert_eq!(limiter(7, rate).per_sec(), 2.0f64.to_bits());
    }
    for rate in [f64::MAX, f64::MIN_POSITIVE, f64::from_bits(1), 0.3] {
        assert_eq!(limiter(7, rate).per_sec(), rate.to_bits());
    }
    assert_eq!(limiter(u32::MAX, 1.0).burst(), f64::from(u32::MAX).to_bits());
    assert_eq!(limiter(7, 1.0).source_count(), 0);
}

/// The same decisions as the formula computed with floating-point numbers.
#[test]
fn decisions_match_the_floating_point_formula() {
    for (burst, per_sec) in [(1, 0.1), (3, 1.0 / 3.0), (10, 7.7), (4, 1e-3), (2, 1e300)] {
        let mut limited = limiter(burst, per_sec);
        let addr = v4([10, 1, 2, 3]);
        let full = f64::from(burst);
        let mut tokens = full;
        let mut last = NOW;
        let mut step: u64 = 12345;
        let mut now = NOW;
        for _ in 0..2000 {
            step = step.wrapping_mul(6364136223846793005).wrapping_add(1);
            now += (step >> 33) as u128;
            let elapsed = std::time::Duration::from_nanos((now - last) as u64).as_secs_f64();
            tokens = (tokens + (elapsed * per_sec)).min(full);
            last = now;
            let expected = tokens >= 1.0;
            if expected {
                tokens -= 1.0;
            }
            assert_eq!(limited.check(addr, now), expected);
        }
    }
}

#[test]
fn protocol_versions_are_distinct_sources() {
    let mut limited = limiter(1, 1.0);
    assert!(limited.check(IpAddr::V4(1), NOW));
    assert!(limited.check(IpAddr::V6(1), NOW));
    assert!(!limited.check(IpAddr::V4(1), NOW));
    assert!(!limited.check(IpAddr::V6(1), NOW));
    assert_eq!(limited.source_count(), 2);
}

#[test]
fn sources_in_debt_survive_a_sweep() {
    let mut limited = limiter(100, 1.0);
    let debtor = v4([203, 0, 113, 9]);
    for _ in 0..100 {
        assert!(limited.check(debtor, NOW));
    }
    for i in 0..=SWEEP_THRESHOLD {
        assert!(limited.check(IpAddr::V6(i as u128), NOW));
    }
    let before = limited.source_count();
    // the sweep is gated on time
    assert!(limited.check(v4([192, 0, 2, 1]), NOW + SWEEP_INTERVAL - 1));
    assert_eq!(limited.source_count(), before + 1);
    // at the interval only the debtor, the last requester and the new one remain
    assert!(limited.check(v4([192, 0, 2, 2]), NOW + SWEEP_INTERVAL));
    assert_eq!(limited.source_count(), 3);
    // sixty tokens have refilled for the debtor, no more
    for _ in 0..60 {
        assert!(limited.check(debtor, NOW + SWEEP_INTERVAL));
    }
    assert!(!limited.check(debtor, NOW + SWEEP_INTERVAL));
}

#[test]
fn sweep_is_gated_on_size() {
    let mut limited = limiter(1, 1.0);
    for i in 0..SWEEP_THRESHOLD {
        assert!(limited.check(IpAddr::V6(i as u128), NOW));
    }
    let later = NOW + SWEEP_INTERVAL + SECOND;
    // exactly the threshold is not above it
    assert!(limited.check(v4([192, 0, 2, 1]), later));
    assert_eq!(limited.source_count(), SWEEP_THRESHOLD + 1);
    assert!(limited.check(v4([192, 0, 2, 2]), later));
    assert_eq!(limited.source_count(), 2);
}

#[test]
fn backstop_drops_the_whole_table() {
    // a rate that regains next to nothing, so that nobody refills
    let mut limited = limiter(1, 1e-9);
    for i in 0..=HARD_MAX {
        assert!(limited.check(IpAddr::V6(i as u128), NOW));
    }
    assert_eq!(limited.source_count(), HARD_MAX + 1);
    assert!(!limited.check(IpAddr::V6(5), NOW));
    assert!(limited.check(IpAddr::V6(5), NOW + SWEEP_INTERVAL));
    assert_eq!(limited.source_count(), 1);
}

#[test]
fn time_that_goes_back_refills_nothing() {
    let mut limited = limiter(1, 1.0);
    let addr = v4([127, 0, 0, 1]);
    assert!(limited.check(addr, NOW));
    assert!(!limited.check(addr, NOW - 100 * SECOND));
    // what was last seen is the earlier time
    assert!(limited.check(addr, NOW));
}

#[test]
fn layer_forwards_without_a_limiter() {
    assert!(matches!(
        auth_rate_limit_layer(None, None, NOW),
        LayerAction::Forward
    ));
    assert!(matches!(
        auth_rate_limit_layer(None, Some(v4([127, 0, 0, 1])), NOW),
        LayerAction::Forward
    ));
}

#[test]
fn layer_refuses_what_it_cannot_attribute() {
    let mut limited = limiter(1, 1.0);
    match auth_rate_limit_layer(Some(&mut limited), None, NOW) {
        LayerAction::Reply { status, body } => {
            assert_eq!(status, 500);
            assert_eq!(body, "unable to attribute request");
        }
        LayerAction::Forward => panic!("unmetered request went on"),
    }
    assert_eq!(limited.source_count(), 0);
}

#[test]
fn layer_throttles_an_exhausted_source() {
    let mut limited = limiter(1, 1.0);
    let addr = Some(v4([127, 0, 0, 1]));
    assert!(matches!(
        auth_rate_limit_layer(Some(&mut limited), addr, NOW),
        LayerAction::Forward
    ));
    match auth_rate_limit_layer(Some(&mut limited), addr, NOW) {
        LayerAction::Reply { status, body } => {
            assert_eq!(status, 429);
            assert_eq!(body, "rate limit exceeded, slow down");
        }
        LayerAction::Forward => panic!("exhausted source went on"),
    }
}

#[test]
fn forgetting_cannot_be_observed() {
    let mut sweeping = limiter(5, 0.5);
    let mut small = limiter(5, 0.5);
    let sources = [v4([10, 0, 0, 1]), v4([10, 0, 0, 2]), v4([10, 0, 0, 3])];
    // only one of the two has enough sources to sweep
    for i in 0..=SWEEP_THRESHOLD {
        assert!(sweeping.check(IpAddr::V6(i as u128), NOW));
    }
    let mut step: u64 = 99;
    let mut now = NOW;
    for i in 0..300 {
        step = step.wrapping_mul(6364136223846793005).wrapping_add(7);
        now += (step >> 32) as u128;
        let source = sources[i % 3];
        assert_eq!(sweeping.check(source, now), small.check(source, now));
    }
    assert!(sweeping.source_count() < SWEEP_THRESHOLD);
}

/// Requests that a source is granted when it asks every `step` from `NOW` on, until `end`.
fn polled(limited: &mut AuthRateLimiter, addr: IpAddr, step: u128, end: u128) -> Vec<u128> {
    let mut granted = Vec::new();
    let mut now = NOW;
    while now <= end {
        if limited.check(addr, now) {
            granted.push(now);
        }
        now += step;
    }
    granted
}

#[test]
fn grants_are_limited_over_time() {
    // polled every tenth of a millisecond for twenty seconds
    let mut limited = limiter(3, 2.0);
    let granted = polled(&mut limited, v4([127, 0, 0, 1]), 100_000, NOW + 20 * SECOND);
    // the fortieth of the regained tokens is short of a whole one by rounding
    assert_eq!(granted.len(), 3 + 2 * 20 - 1);
    // in any span of it
    for from in 0..granted.len() {
        for to in from..granted.len() {
            let span = (granted[to] - granted[from]) as f64 / 1e9;
            assert!((to - from + 1) as f64 <= 3.0 + 2.0 * span + 1e-6);
        }
    }
}

#[test]
fn idle_time_before_a_span_gives_no_more_than_the_burst() {
    let mut limited = limiter(4, 1.0);
    let addr = v4([127, 0, 0, 1]);
    assert!(limited.check(addr, NOW));
    let from = NOW + 1000 * SECOND;
    let mut granted = 0;
    for i in 0..100u128 {
        if limited.check(addr, from + i * SECOND / 50) {
            granted += 1;
        }
    }
    // four at once, and one more in just under two seconds
    assert_eq!(granted, 5);
}

#[test]
fn table_holds_the_sources_of_recent_requests() {
    let mut limited = limiter(1, 1.0);
    let mut largest = 0;
    for i in 0..60_000u128 {
        // a new source every ten milliseconds, ten minutes long
        limited.check(IpAddr::V6(i), NOW + i * SECOND / 100);
        largest = largest.max(limited.source_count());
    }
    // those of a sweep interval and a second are fewer than the threshold
    assert_eq!(largest, SWEEP_THRESHOLD + 1);
}

#[test]
fn sweep_reports_a_reset() {
    let mut limited = limiter(1, 1e-9);
    for i in 0..=HARD_MAX {
        assert!(limited.check(IpAddr::V6(i as u128), NOW));
    }
    assert_eq!(limited.sweep(NOW), None);
    assert_eq!(limited.sweep(NOW + SWEEP_INTERVAL), Some(HARD_MAX + 1));
    assert_eq!(limited.source_count(), 0);
    assert_eq!(limited.sweep(NOW + 2 * SWEEP_INTERVAL), None);
}

#[test]
fn sweeping_first_changes_nothing() {
    let mut swept = limiter(1, 1.0);
    let mut plain = limiter(1, 1.0);
    for i in 0..=SWEEP_THRESHOLD {
        let addr = IpAddr::V6(i as u128);
        assert!(swept.check(addr, NOW) && plain.check(addr, NOW));
    }
    let later = NOW + SWEEP_INTERVAL;
    assert_eq!(swept.sweep(later), None);
    assert_eq!(swept.source_count(), 0);
    let addr = IpAddr::V6(3);
    assert_eq!(swept.check(addr, later), plain.check(addr, later));
    assert_eq!(swept.source_count(), plain.source_count());
}
