use auth_guard::arithmetic::{billionths, minus_one, product_of, sum_of, whole};
use auth_guard::binary64::{INFINITY, ONE, TWO};
use auth_guard::ratelimit::{refilled_tokens, Bucket};
use std::time::Duration;

/// A sequence of numbers without an evident pattern.
fn next(state: &mut u64) -> u64 {
    *state = state
        .wrapping_mul(6364136223846793005)
        .wrapping_add(1442695040888963407);
    let x = *state;
    (x ^ (x >> 29)).wrapping_mul(0xbf58476d1ce4e5b9) ^ (x >> 32)
}

/// A nonnegative finite representation; the exponents of some are close to one's.
fn finite(state: &mut u64) -> u64 {
    let x = next(state);
    if x % 3 == 0 {
        next(state) % INFINITY
    } else {
        let exponent = 1023 - 40 + next(state) % 80;
        (exponent << 52) | (next(state) >> 12)
    }
}

#[test]
fn constants_are_the_numbers_they_name() {
    assert_eq!(ONE, 1.0f64.to_bits());
    assert_eq!(TWO, 2.0f64.to_bits());
    assert_eq!(INFINITY, f64::INFINITY.to_bits());
}

#[test]
fn sums_match_the_hardware() {
    let mut state: u64 = 1;
    for _ in 0..100_000 {
        let a = finite(&mut state);
        let b = finite(&mut state);
        let expected = f64::from_bits(a) + f64::from_bits(b);
        assert_eq!(sum_of(a, b), expected.to_bits(), "{a:x} + {b:x}");
    }
    assert_eq!(sum_of(INFINITY, ONE), INFINITY);
    assert_eq!(sum_of(0, 0), 0);
    assert_eq!(sum_of(0.1f64.to_bits(), 0.2f64.to_bits()), (0.1f64 + 0.2f64).to_bits());
    let max = f64::MAX.to_bits();
    assert_eq!(sum_of(max, max), INFINITY);
    // halfway between two neighbours: the even one
    let big = 9_007_199_254_740_992.0f64;
    assert_eq!(sum_of(big.to_bits(), ONE), big.to_bits());
    assert_eq!(sum_of((big + 2.0).to_bits(), ONE), (big + 4.0).to_bits());
}

#[test]
fn products_match_the_hardware() {
    let mut state: u64 = 2;
    for _ in 0..100_000 {
        let a = finite(&mut state);
        let b = finite(&mut state);
        let expected = f64::from_bits(a) * f64::from_bits(b);
        assert_eq!(product_of(a, b), expected.to_bits(), "{a:x} * {b:x}");
    }
    for small in 0..64u64 {
        for shift in 1..40u64 {
            let b = (1023 - shift) << 52;
            let expected = f64::from_bits(small) * f64::from_bits(b);
            assert_eq!(product_of(small, b), expected.to_bits());
        }
    }
}

#[test]
fn whole_numbers_match_the_hardware() {
    let mut state: u64 = 3;
    for _ in 0..100_000 {
        let n = next(&mut state) >> (next(&mut state) % 64);
        assert_eq!(whole(n as u128), (n as f64).to_bits());
        let wide = ((n as u128) << 30) | (next(&mut state) as u128 >> 20);
        assert_eq!(whole(wide), (wide as f64).to_bits());
    }
    assert_eq!(whole(0), 0);
    assert_eq!(whole(3), 3.0f64.to_bits());
}

#[test]
fn seconds_match_the_standard_library() {
    let mut state: u64 = 4;
    for _ in 0..100_000 {
        let secs = next(&mut state) >> (next(&mut state) % 64);
        let nanos = (next(&mut state) % 1_000_000_000) as u32;
        let expected = Duration::new(secs, nanos).as_secs_f64();
        let seconds = sum_of(whole(secs as u128), billionths(nanos));
        assert_eq!(seconds, expected.to_bits(), "{secs}.{nanos:09}");
    }
    assert_eq!(billionths(0), 0);
    assert_eq!(billionths(500_000_000), 0.5f64.to_bits());
    assert_eq!(billionths(1), 1e-9f64.to_bits());
    assert_eq!(billionths(999_999_999), 0.999_999_999f64.to_bits());
}

#[test]
fn taking_one_matches_the_hardware() {
    let mut state: u64 = 5;
    for _ in 0..100_000 {
        let exponent = 1023 + next(&mut state) % 32;
        let a = (exponent << 52) | (next(&mut state) >> 12);
        assert_eq!(minus_one(a), (f64::from_bits(a) - 1.0).to_bits());
    }
    assert_eq!(minus_one(ONE), 0);
    assert_eq!(minus_one(2.5f64.to_bits()), 1.5f64.to_bits());
}

#[test]
fn refills_match_the_hardware() {
    let mut state: u64 = 6;
    for _ in 0..100_000 {
        let burst = (next(&mut state) >> (32 + next(&mut state) % 32)) as u32;
        let burst = f64::from(burst.max(1));
        let tokens = burst * ((next(&mut state) >> 11) as f64 / 9_007_199_254_740_992.0);
        let per_sec = finite(&mut state);
        let elapsed = next(&mut state) >> (next(&mut state) % 64);
        let bucket = Bucket { tokens: tokens.to_bits(), last_seen: 77 };
        let seconds = Duration::from_nanos(elapsed).as_secs_f64();
        let expected = (tokens + (seconds * f64::from_bits(per_sec))).min(burst);
        assert_eq!(
            refilled_tokens(&bucket, 77 + elapsed as u128, burst.to_bits(), per_sec),
            expected.to_bits()
        );
    }
    // a clock that runs backwards refills nothing
    let bucket = Bucket { tokens: 0.25f64.to_bits(), last_seen: 1_000 };
    assert_eq!(refilled_tokens(&bucket, 10, ONE, TWO), 0.25f64.to_bits());
    // a quarter of a second at two tokens a second
    assert_eq!(
        refilled_tokens(&bucket, 250_001_000, ONE, TWO),
        0.75f64.to_bits()
    );
}

#[test]
fn longer_durations_are_not_fewer_seconds() {
    let edge: u128 = 1 << 53;
    for secs in [0, 1, 59, edge - 2, edge - 1, edge, edge + 1, (1 << 60) + 3] {
        let before = sum_of(whole(secs), billionths(999_999_999));
        let after = sum_of(whole(secs + 1), billionths(0));
        assert!(before <= after, "{secs}");
    }
}

#[test]
fn partial_refills_accumulate() {
    let mut state: u64 = 8;
    for _ in 0..20_000 {
        let burst = f64::from((next(&mut state) >> (32 + next(&mut state) % 32)) as u32).max(1.0);
        let tokens = burst * ((next(&mut state) >> 11) as f64 / 9_007_199_254_740_992.0);
        let per_sec = burst * f64::from((next(&mut state) % 1000) as u32) / 100.0;
        let first = (next(&mut state) % 10_000_000_000) as u128;
        let second = (next(&mut state) % 10_000_000_000) as u128;
        let bucket = Bucket { tokens: tokens.to_bits(), last_seen: 7 };
        let full = burst.to_bits();
        let rate = per_sec.to_bits();
        let middle = Bucket {
            tokens: refilled_tokens(&bucket, 7 + first, full, rate),
            last_seen: 7 + first,
        };
        let now = 7 + first + second;
        let twice = f64::from_bits(refilled_tokens(&middle, now, full, rate));
        let once = f64::from_bits(refilled_tokens(&bucket, now, full, rate));
        let bound = 3.0 * burst / 281_474_976_710_656.0;
        assert!((twice - once).abs() <= bound, "{twice} {once}");
    }
    // a tenth of a second ten times at two tokens a second, from nothing
    let mut bucket = Bucket { tokens: 0, last_seen: 0 };
    for i in 1..=10u128 {
        let now = i * 100_000_000;
        let tokens = refilled_tokens(&bucket, now, 5.0f64.to_bits(), TWO);
        bucket = Bucket { tokens, last_seen: now };
    }
    assert!((f64::from_bits(bucket.tokens) - 2.0).abs() < 1e-14);
}

#[test]
fn refilling_often_at_most_doubles_the_gain() {
    // a nanosecond gives a little more than half of the last digit of what is there
    let digit: f64 = 1.0 / 2_097_152.0;
    let per_sec = 0.505 * digit * 1e9;
    let start = 2_147_483_648.0f64;
    let burst = 4_294_967_295.0f64.to_bits();
    let mut bucket = Bucket { tokens: start.to_bits(), last_seen: 0 };
    for now in 1..=1000u128 {
        let tokens = refilled_tokens(&bucket, now, burst, per_sec.to_bits());
        bucket = Bucket { tokens, last_seen: now };
    }
    let gain = f64::from_bits(bucket.tokens) - start;
    assert_eq!(gain, 1000.0 * digit);
    assert!(gain <= 2.0 * per_sec * 1000.0 / 1e9);
}
