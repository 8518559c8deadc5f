//! How far the refill of a bucket is from the one computed without rounding.

use crate::binary64;
use crate::binary64::INFINITY;
use crate::ratelimit;
use crate::ratelimit::{Bucket, NANOS_PER_SEC};
use vstd::arithmetic::power2::*;
use vstd::prelude::*;

verus! {

/// Tokens that a bucket would hold at `now` if nothing were rounded, in billionths of a
/// unit: what it held, and the rate for every second since, up to the burst.
pub open spec fn exact_refill(bucket: Bucket, now: u128, burst: u64, per_sec: u64) -> int {
    let filled = binary64::units(bucket.tokens) * NANOS_PER_SEC + binary64::units(per_sec)
        * ratelimit::duration_since(now, bucket.last_seen);
    let cap = binary64::units(burst) * NANOS_PER_SEC;
    if filled <= cap {
        filled
    } else {
        cap
    }
}

/// `a` and `b`, in billionths of a unit, differ by at most `count` times the rounding of
/// one refill: two to the power of -48 of the burst, and one unit.
pub open spec fn within_rounding(a: int, b: int, burst: u64, count: nat) -> bool {
    let rounding = (binary64::units(burst) + 0x1_0000_0000_0000) * NANOS_PER_SEC;
    &&& 0x1_0000_0000_0000 * (a - b) <= count * rounding
    &&& 0x1_0000_0000_0000 * (b - a) <= count * rounding
}

/// What the rate gives in a time is off by at most two to the power of -50 of it, and
/// half a unit.
pub proof fn lemma_earned(nanos: nat, per_sec: u64)
    requires
        nanos <= u128::MAX,
    ensures
        ({
            let earned = binary64::product(ratelimit::as_secs(nanos), per_sec);
            let got = binary64::units(earned) * NANOS_PER_SEC;
            let exact = binary64::units(per_sec) * nanos;
            let half = 0x8_0000_0000_0000 * NANOS_PER_SEC;
            &&& 0x10_0000_0000_0000 * (got - exact) <= 4 * exact + half
            &&& earned == INFINITY || 0x10_0000_0000_0000 * (exact - got) <= 4 * exact + half
            &&& nanos >= 1 && binary64::units(per_sec) >= pow2(100) ==> 0x10_0000_0000_0000 * (got
                - exact) <= 4 * exact
        }),
{
    let n = nanos / (NANOS_PER_SEC as nat);
    let f = nanos % (NANOS_PER_SEC as nat);
    let u = binary64::per_one();
    let s = binary64::units(ratelimit::as_secs(nanos));
    let r = binary64::units(per_sec);
    let e = binary64::units(binary64::product(ratelimit::as_secs(nanos), per_sec));
    let d = NANOS_PER_SEC as nat;
    lemma2_to64();
    lemma2_to64_rest();
    lemma_pow2_adds(60, 39);
    lemma_pow2_adds(60, 40);
    lemma_pow2_pos(1074);
    binary64::lemma_seconds_error(n, f);
    binary64::lemma_round_error(s * r, u);
    // everything times the number one, so that only sums are left
    let y = (s * d) * r;
    let z = (r * nanos) * u;
    let p = (e * d) * u;
    let h = u * d;
    assert(p == (e * u) * d) by (nonlinear_arith)
        requires
            p == (e * d) * u,
    ;
    assert(y == (s * r) * d) by (nonlinear_arith)
        requires
            y == (s * d) * r,
    ;
    let q = nanos * u;
    assert(z == q * r) by (nonlinear_arith)
        requires
            z == (r * nanos) * u,
            q == nanos * u,
    ;
    assert(0x10_0000_0000_0000 * (y - z) <= 2 * z && 0x10_0000_0000_0000 * (z - y) <= 2 * z)
        by (nonlinear_arith)
        requires
            0x10_0000_0000_0000 * (s * d - q) <= 2 * q,
            0x10_0000_0000_0000 * (q - s * d) <= 2 * q,
            y == (s * d) * r,
            z == q * r,
            r >= 0,
    {
        let over: int = 2 * q - 0x10_0000_0000_0000 * (s * d - q);
        let under: int = 2 * q - 0x10_0000_0000_0000 * (q - s * d);
        assert(over * r >= 0);
        assert(under * r >= 0);
        assert(over * r == 2 * z - 0x10_0000_0000_0000 * (y - z));
        assert(under * r == 2 * z - 0x10_0000_0000_0000 * (z - y));
    }
    if nanos >= 1 && r >= pow2(100) {
        assert(q >= u) by (nonlinear_arith)
            requires
                q == nanos * u,
                nanos >= 1,
        ;
        let k = pow2(100);
        assert(z >= k * u) by (nonlinear_arith)
            requires
                z == q * r,
                q >= u,
                r >= k,
        ;
    }
    let got = e * d;
    let exact = r * nanos;
    let half = 0x8_0000_0000_0000 * d;
    assert(0x10_0000_0000_0000 * (p - z) <= 4 * z + 0x8_0000_0000_0000 * h);
    assert(0x10_0000_0000_0000 * (got - exact) <= 4 * exact + half) by (nonlinear_arith)
        requires
            0x10_0000_0000_0000 * (p - z) <= 4 * z + 0x8_0000_0000_0000 * h,
            p == got * u,
            z == exact * u,
            h == u * d,
            half == 0x8_0000_0000_0000 * d,
            u > 0,
    {
        assert((4 * exact + half - 0x10_0000_0000_0000 * (got - exact)) * u == 4 * z
            + 0x8_0000_0000_0000 * h - 0x10_0000_0000_0000 * (p - z));
    }
    if binary64::product(ratelimit::as_secs(nanos), per_sec) != INFINITY {
        assert(0x10_0000_0000_0000 * (z - p) <= 4 * z + 0x8_0000_0000_0000 * h);
        assert(0x10_0000_0000_0000 * (exact - got) <= 4 * exact + half) by (nonlinear_arith)
            requires
                0x10_0000_0000_0000 * (z - p) <= 4 * z + 0x8_0000_0000_0000 * h,
                p == got * u,
                z == exact * u,
                h == u * d,
                half == 0x8_0000_0000_0000 * d,
                u > 0,
        {
            assert((4 * exact + half - 0x10_0000_0000_0000 * (exact - got)) * u == 4 * z
                + 0x8_0000_0000_0000 * h - 0x10_0000_0000_0000 * (z - p));
        }
    }
    if nanos >= 1 && r >= pow2(100) {
        assert(0x10_0000_0000_0000 * (p - z) <= 4 * z);
        assert(0x10_0000_0000_0000 * (got - exact) <= 4 * exact) by (nonlinear_arith)
            requires
                0x10_0000_0000_0000 * (p - z) <= 4 * z,
                p == got * u,
                z == exact * u,
                u > 0,
        {
            assert((4 * exact - 0x10_0000_0000_0000 * (got - exact)) * u == 4 * z
                - 0x10_0000_0000_0000 * (p - z));
        }
    }
}

/// What a bucket held and what it earned are added up to two to the power of -53 of the
/// sum, or the burst caps it.
pub proof fn lemma_level(bucket: Bucket, now: u128, burst: u64, per_sec: u64)
    requires
        bucket.tokens <= burst < INFINITY,
    ensures
        ({
            let earned = binary64::product(
                ratelimit::as_secs(ratelimit::duration_since(now, bucket.last_seen)),
                per_sec,
            );
            let filled = binary64::units(bucket.tokens) + binary64::units(earned);
            let level = binary64::units(ratelimit::refilled(bucket, now, burst, per_sec));
            let cap = binary64::units(burst);
            &&& level <= cap
            &&& level <= binary64::units(bucket.tokens) + 2 * binary64::units(earned)
            &&& filled >= cap ==> level == cap
            &&& 0x20_0000_0000_0000 * (level - filled) <= cap
            &&& filled < cap ==> 0x20_0000_0000_0000 * (filled - level) <= cap
            &&& earned == INFINITY ==> filled >= cap
        }),
{
    let earned = binary64::product(
        ratelimit::as_secs(ratelimit::duration_since(now, bucket.last_seen)),
        per_sec,
    );
    let filled = binary64::units(bucket.tokens) + binary64::units(earned);
    let cap = binary64::units(burst);
    let bits = binary64::sum(bucket.tokens, earned);
    binary64::lemma_sum_bound(bucket.tokens, earned);
    binary64::lemma_sum_gain(bucket.tokens, earned);
    binary64::lemma_order(bits, burst);
    binary64::lemma_order(burst, INFINITY);
    vstd::arithmetic::mul::lemma_mul_basics(cap as int);
    vstd::arithmetic::mul::lemma_mul_basics(filled as int);
    binary64::lemma_round_exact(cap, 1, burst);
    if filled >= cap {
        binary64::lemma_round_monotonic(cap, filled, 1);
    } else {
        binary64::lemma_round_monotonic(filled, cap, 1);
        binary64::lemma_round_error_units(filled);
    }
}

/// A refill is the exact one, up to the rounding of one refill.
pub proof fn law_refill_is_exact_up_to_rounding(
    bucket: Bucket,
    now: u128,
    burst: u64,
    per_sec: u64,
)
    requires
        bucket.tokens <= burst < INFINITY,
    ensures
        within_rounding(
            binary64::units(ratelimit::refilled(bucket, now, burst, per_sec)) * NANOS_PER_SEC,
            exact_refill(bucket, now, burst, per_sec),
            burst,
            1,
        ),
{
    let nanos = ratelimit::duration_since(now, bucket.last_seen);
    let earned = binary64::product(ratelimit::as_secs(nanos), per_sec);
    lemma_earned(nanos, per_sec);
    lemma_level(bucket, now, burst, per_sec);
    binary64::lemma_order(bucket.tokens, burst);
    let x = binary64::units(per_sec) * nanos;
    let t = binary64::units(bucket.tokens) * 1_000_000_000;
    let b = binary64::units(burst) * 1_000_000_000;
    let p = binary64::units(earned) * 1_000_000_000;
    let l = binary64::units(ratelimit::refilled(bucket, now, burst, per_sec)) * 1_000_000_000;
    assert(x >= 0) by (nonlinear_arith)
        requires
            x == binary64::units(per_sec) * nanos,
    ;
    if t + p >= b {
        assert(l == b);
    } else {
        assert(earned != INFINITY);
    }
}

/// The burst itself is reached without rounding: a refill falls short of what the bucket
/// held and the rate gave by no more than the rounding of one refill, or it is the burst.
pub proof fn law_refill_reaches_the_burst(bucket: Bucket, now: u128, burst: u64, per_sec: u64)
    requires
        bucket.tokens <= burst < INFINITY,
    ensures
        ({
            let filled = binary64::units(bucket.tokens) * NANOS_PER_SEC + binary64::units(per_sec)
                * ratelimit::duration_since(now, bucket.last_seen);
            let level = ratelimit::refilled(bucket, now, burst, per_sec);
            ||| level == burst
            ||| 0x1_0000_0000_0000 * (filled - binary64::units(level) * NANOS_PER_SEC) <= (
            binary64::units(burst) + 0x1_0000_0000_0000) * NANOS_PER_SEC
        }),
{
    let nanos = ratelimit::duration_since(now, bucket.last_seen);
    let earned = binary64::product(ratelimit::as_secs(nanos), per_sec);
    let level = ratelimit::refilled(bucket, now, burst, per_sec);
    lemma_earned(nanos, per_sec);
    lemma_level(bucket, now, burst, per_sec);
    binary64::lemma_sum_bound(bucket.tokens, earned);
    binary64::lemma_order(level, burst);
    let x = binary64::units(per_sec) * nanos;
    let t = binary64::units(bucket.tokens) * 1_000_000_000;
    let b = binary64::units(burst) * 1_000_000_000;
    let p = binary64::units(earned) * 1_000_000_000;
    assert(x >= 0) by (nonlinear_arith)
        requires
            x == binary64::units(per_sec) * nanos,
    ;
    if t + p < b {
        assert(earned != INFINITY);
    }
}

/// Two exact refills in a row are one, and an error of the first is not made larger by
/// the second.
pub proof fn lemma_exact_refill_composes(
    bucket: Bucket,
    middle: Bucket,
    now: u128,
    burst: u64,
    per_sec: u64,
    count: nat,
)
    requires
        bucket.tokens <= burst < INFINITY,
        bucket.last_seen <= middle.last_seen <= now,
        within_rounding(
            binary64::units(middle.tokens) * NANOS_PER_SEC,
            exact_refill(bucket, middle.last_seen, burst, per_sec),
            burst,
            count,
        ),
    ensures
        within_rounding(
            exact_refill(middle, now, burst, per_sec),
            exact_refill(bucket, now, burst, per_sec),
            burst,
            count,
        ),
{
    let r = binary64::units(per_sec);
    let first = middle.last_seen - bucket.last_seen;
    let second = now - middle.last_seen;
    assert(r * (first + second) == r * first + r * second) by (nonlinear_arith);
    assert(r * first >= 0 && r * second >= 0) by (nonlinear_arith)
        requires
            r >= 0,
            first >= 0,
            second >= 0,
    ;
    let rounding = (binary64::units(burst) + 0x1_0000_0000_0000) * NANOS_PER_SEC;
    assert(count * rounding >= 0) by (nonlinear_arith)
        requires
            rounding >= 0,
    ;
    binary64::lemma_order(bucket.tokens, burst);
}

/// Partial refills accumulate: looking at a bucket midway neither gains nor loses tokens,
/// up to the rounding of the three refills that are compared.
pub proof fn law_partial_refills_accumulate(
    bucket: Bucket,
    midway: u128,
    now: u128,
    burst: u64,
    per_sec: u64,
)
    requires
        bucket.tokens <= burst < INFINITY,
        bucket.last_seen <= midway <= now,
    ensures
        ({
            let middle = Bucket {
                tokens: ratelimit::refilled(bucket, midway, burst, per_sec),
                last_seen: midway,
            };
            within_rounding(
                binary64::units(ratelimit::refilled(middle, now, burst, per_sec)) * NANOS_PER_SEC,
                binary64::units(ratelimit::refilled(bucket, now, burst, per_sec)) * NANOS_PER_SEC,
                burst,
                3,
            )
        }),
{
    let middle = Bucket {
        tokens: ratelimit::refilled(bucket, midway, burst, per_sec),
        last_seen: midway,
    };
    lemma_level(bucket, midway, burst, per_sec);
    binary64::lemma_sum_bound(
        bucket.tokens,
        binary64::product(
            ratelimit::as_secs(ratelimit::duration_since(midway, bucket.last_seen)),
            per_sec,
        ),
    );
    binary64::lemma_order(middle.tokens, burst);
    law_refill_is_exact_up_to_rounding(bucket, midway, burst, per_sec);
    law_refill_is_exact_up_to_rounding(bucket, now, burst, per_sec);
    law_refill_is_exact_up_to_rounding(middle, now, burst, per_sec);
    lemma_exact_refill_composes(bucket, middle, now, burst, per_sec, 1);
}

/// The bucket after it was refilled at each of the times.
pub open spec fn refilled_at(bucket: Bucket, times: Seq<u128>, burst: u64, per_sec: u64) -> Bucket
    decreases times.len(),
{
    if times.len() == 0 {
        bucket
    } else {
        let before = refilled_at(bucket, times.drop_last(), burst, per_sec);
        Bucket {
            tokens: ratelimit::refilled(before, times.last(), burst, per_sec),
            last_seen: times.last(),
        }
    }
}

/// However often a bucket is refilled on the way, it holds what one exact refill would
/// give, up to the rounding of each refill.
pub proof fn law_many_partial_refills_accumulate(
    bucket: Bucket,
    times: Seq<u128>,
    burst: u64,
    per_sec: u64,
)
    requires
        bucket.tokens <= burst < INFINITY,
        times.len() > 0,
        bucket.last_seen <= times[0],
        forall|i: int, j: int| 0 <= i <= j < times.len() ==> times[i] <= times[j],
    ensures
        refilled_at(bucket, times, burst, per_sec).tokens <= burst,
        within_rounding(
            binary64::units(refilled_at(bucket, times, burst, per_sec).tokens) * NANOS_PER_SEC,
            exact_refill(bucket, times.last(), burst, per_sec),
            burst,
            times.len(),
        ),
    decreases times.len(),
{
    let earlier = times.drop_last();
    let before = refilled_at(bucket, earlier, burst, per_sec);
    let now = times.last();
    if earlier.len() == 0 {
        law_refill_is_exact_up_to_rounding(bucket, now, burst, per_sec);
    } else {
        law_many_partial_refills_accumulate(bucket, earlier, burst, per_sec);
        lemma_exact_refill_composes(bucket, before, now, burst, per_sec, earlier.len());
        law_refill_is_exact_up_to_rounding(before, now, burst, per_sec);
        let rounding = (binary64::units(burst) + 0x1_0000_0000_0000) * NANOS_PER_SEC;
        let n = earlier.len();
        assert((n + 1) * rounding == n * rounding + rounding) by (nonlinear_arith);
    }
    lemma_level(before, now, burst, per_sec);
    binary64::lemma_sum_bound(
        before.tokens,
        binary64::product(
            ratelimit::as_secs(ratelimit::duration_since(now, before.last_seen)),
            per_sec,
        ),
    );
    binary64::lemma_order(ratelimit::refilled(before, now, burst, per_sec), burst);
}

/// A bucket has refilled to the burst, whatever it held, once the rate has given the burst
/// and two to the power of -49 of it more.
pub proof fn law_time_to_refill(bucket: Bucket, now: u128, burst: u64, per_sec: u64)
    requires
        bucket.tokens <= burst,
        binary64::ONE <= burst < INFINITY,
        0x2_0000_0000_0000 * (binary64::units(per_sec) * ratelimit::duration_since(
            now,
            bucket.last_seen,
        )) >= 0x2_0000_0000_0001 * (binary64::units(burst) * NANOS_PER_SEC),
    ensures
        ratelimit::refilled(bucket, now, burst, per_sec) == burst,
{
    let nanos = ratelimit::duration_since(now, bucket.last_seen);
    let earned = binary64::product(ratelimit::as_secs(nanos), per_sec);
    lemma_earned(nanos, per_sec);
    lemma_level(bucket, now, burst, per_sec);
    binary64::lemma_one();
    binary64::lemma_order(binary64::ONE, burst);
    lemma2_to64();
    lemma_pow2_strictly_increases(64, 1074);
    let b = binary64::units(burst) * 1_000_000_000;
    let p = binary64::units(earned) * 1_000_000_000;
    assert(earned == INFINITY || p >= b);
    binary64::lemma_sum_bound(bucket.tokens, earned);
    binary64::lemma_order(ratelimit::refilled(bucket, now, burst, per_sec), burst);
}

} // verus!
