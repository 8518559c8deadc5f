//! How many requests a limiter grants over time.

use crate::binary64;
use crate::ratelimit;
use crate::ratelimit::{Bucket, LimiterView, SourceKey, NANOS_PER_SEC};
use crate::ratelimit_accuracy;
use crate::ratelimit_laws;
use vstd::arithmetic::power2::*;
use vstd::prelude::*;

verus! {

/// A request: its source and its time.
pub struct Request {
    pub key: SourceKey,
    pub time: u128,
}

/// The state after a sequence of requests, of any sources.
pub open spec fn after(limiter: LimiterView, requests: Seq<Request>) -> LimiterView
    decreases requests.len(),
{
    if requests.len() == 0 {
        limiter
    } else {
        after(limiter, requests.drop_last()).checked(requests.last().key, requests.last().time)
    }
}

/// How many of the requests are of the source, made from `from` to `to`, and granted.
pub open spec fn grants_between(
    limiter: LimiterView,
    requests: Seq<Request>,
    key: SourceKey,
    from: u128,
    to: u128,
) -> nat
    decreases requests.len(),
{
    if requests.len() == 0 {
        0
    } else {
        let earlier = requests.drop_last();
        let last = requests.last();
        let counts = last.key == key && from <= last.time <= to && after(limiter, earlier).granted(
            key,
            last.time,
        );
        grants_between(limiter, earlier, key, from, to) + (if counts {
            1nat
        } else {
            0
        })
    }
}

/// How many of the requests are of the source and made after `from` and up to `to`,
/// granted or not.
pub open spec fn asked_between(requests: Seq<Request>, key: SourceKey, from: u128, to: u128) -> nat
    decreases requests.len(),
{
    if requests.len() == 0 {
        0
    } else {
        let last = requests.last();
        asked_between(requests.drop_last(), key, from, to) + (if last.key == key && from < last.time
            <= to {
            1nat
        } else {
            0
        })
    }
}

/// Time of the last request, or `start` if there is none.
pub open spec fn end_time(start: u128, requests: Seq<Request>) -> u128 {
    if requests.len() == 0 {
        start
    } else {
        requests.last().time
    }
}

/// No request is earlier than `start` or than the one before it.
pub open spec fn in_order(start: u128, requests: Seq<Request>) -> bool
    decreases requests.len(),
{
    requests.len() > 0 ==> {
        &&& in_order(start, requests.drop_last())
        &&& end_time(start, requests.drop_last()) <= requests.last().time
    }
}

/// At no request is the whole table dropped.
pub open spec fn never_resets(limiter: LimiterView, requests: Seq<Request>) -> bool
    decreases requests.len(),
{
    requests.len() > 0 ==> {
        &&& never_resets(limiter, requests.drop_last())
        &&& !after(limiter, requests.drop_last()).resets(requests.last().time)
    }
}

/// A bound on what a bucket gains by one refill, all sides weighed by `k`: `a` times what
/// the rate gives, and `w` times the burst.
spec fn gain_bound(burst: u64, per_sec: u64, k: nat, a: nat, w: nat) -> bool {
    forall|bucket: Bucket, now: u128|
        bucket.tokens <= burst && bucket.last_seen < now ==> k * binary64::units(
            #[trigger] ratelimit::refilled(bucket, now, burst, per_sec),
        ) <= k * binary64::units(bucket.tokens) + a * (binary64::units(per_sec) * (now
            - bucket.last_seen)) + w * binary64::units(burst)
}

/// The tokens left and those granted do not exceed the burst and the gains of `asked`
/// refills in `elapsed` nanoseconds.
spec fn balanced(
    state: LimiterView,
    tokens: u64,
    granted: nat,
    asked: nat,
    elapsed: int,
    k: nat,
    a: nat,
    w: nat,
) -> bool {
    k * (binary64::units(tokens) + granted * binary64::per_one()) <= k * binary64::units(
        state.burst,
    ) + a * (binary64::units(state.per_sec) * elapsed) + asked * (w * binary64::units(state.burst))
}

/// What was granted to the source since `from` is accounted for by its bucket. A source
/// that was forgotten has been refilled once more.
spec fn accounted(
    state: LimiterView,
    key: SourceKey,
    from: u128,
    now: u128,
    granted: nat,
    asked: nat,
    k: nat,
    a: nat,
    w: nat,
) -> bool {
    if state.buckets.contains_key(key) {
        let bucket = state.buckets[key];
        &&& bucket.last_seen <= now
        &&& if bucket.last_seen < from {
            granted == 0
        } else {
            balanced(state, bucket.tokens, granted, asked, bucket.last_seen - from, k, a, w)
        }
    } else if now < from {
        granted == 0
    } else {
        balanced(
            state,
            state.burst,
            granted,
            if now > from {
                asked + 1
            } else {
                asked
            },
            now - from,
            k,
            a,
            w,
        )
    }
}

/// With nothing granted yet, the burst covers any bucket.
proof fn lemma_balanced_fresh(
    state: LimiterView,
    tokens: u64,
    asked: nat,
    elapsed: int,
    k: nat,
    a: nat,
    w: nat,
)
    requires
        binary64::units(tokens) <= binary64::units(state.burst),
        0 <= elapsed,
    ensures
        balanced(state, tokens, 0, asked, elapsed, k, a, w),
{
    let t = binary64::units(tokens);
    let b = binary64::units(state.burst);
    let r = binary64::units(state.per_sec);
    let u = binary64::per_one();
    vstd::arithmetic::mul::lemma_mul_basics(u as int);
    assert(k * t <= k * b) by (nonlinear_arith)
        requires
            t <= b,
    ;
    assert(a * (r * elapsed) >= 0) by (nonlinear_arith)
        requires
            r >= 0,
            elapsed >= 0,
    ;
    assert(asked * (w * b) >= 0) by (nonlinear_arith);
}

/// More time and more refills cover what less covered.
proof fn lemma_balanced_relaxes(
    state: LimiterView,
    tokens: u64,
    granted: nat,
    asked1: nat,
    asked2: nat,
    elapsed1: int,
    elapsed2: int,
    k: nat,
    a: nat,
    w: nat,
)
    requires
        balanced(state, tokens, granted, asked1, elapsed1, k, a, w),
        asked1 <= asked2,
        elapsed1 <= elapsed2,
    ensures
        balanced(state, tokens, granted, asked2, elapsed2, k, a, w),
{
    let b = binary64::units(state.burst);
    let r = binary64::units(state.per_sec);
    let wb = w * b;
    assert(r * elapsed1 <= r * elapsed2) by (nonlinear_arith)
        requires
            elapsed1 <= elapsed2,
    ;
    let x1 = r * elapsed1;
    let x2 = r * elapsed2;
    assert(a * x1 <= a * x2) by (nonlinear_arith)
        requires
            x1 <= x2,
    ;
    assert(asked1 * wb <= asked2 * wb) by (nonlinear_arith)
        requires
            asked1 <= asked2,
    ;
}

/// A refill takes the time that it uses, and one refill of those asked for.
proof fn lemma_balanced_refill(
    state: LimiterView,
    bucket: Bucket,
    now: u128,
    granted: nat,
    asked: nat,
    elapsed: int,
    k: nat,
    a: nat,
    w: nat,
)
    requires
        gain_bound(state.burst, state.per_sec, k, a, w),
        bucket.tokens <= state.burst,
        bucket.last_seen < now,
        balanced(state, bucket.tokens, granted, asked, elapsed, k, a, w),
    ensures
        balanced(
            state,
            ratelimit::refilled(bucket, now, state.burst, state.per_sec),
            granted,
            asked + 1,
            elapsed + (now - bucket.last_seen),
            k,
            a,
            w,
        ),
{
    let t = binary64::units(bucket.tokens);
    let l = binary64::units(ratelimit::refilled(bucket, now, state.burst, state.per_sec));
    let b = binary64::units(state.burst);
    let r = binary64::units(state.per_sec);
    let g = granted * binary64::per_one();
    let dt = now - bucket.last_seen;
    let wb = w * b;
    assert(k * (t + g) == k * t + k * g && k * (l + g) == k * l + k * g) by (nonlinear_arith);
    assert(a * (r * (elapsed + dt)) == a * (r * elapsed) + a * (r * dt)) by (nonlinear_arith);
    assert((asked + 1) * wb == asked * wb + wb) by (nonlinear_arith);
}

proof fn lemma_sweep_accounted(
    state: LimiterView,
    key: SourceKey,
    from: u128,
    now: u128,
    time: u128,
    granted: nat,
    asked: nat,
    k: nat,
    a: nat,
    w: nat,
)
    requires
        state.wf(),
        gain_bound(state.burst, state.per_sec, k, a, w),
        !state.resets(time),
        accounted(state, key, from, now, granted, asked, k, a, w),
        now <= time,
    ensures
        accounted(state.swept(time), key, from, time, granted, asked, k, a, w),
{
    let swept = state.swept(time);
    let asked_then = if time > from {
        asked + 1
    } else {
        asked
    };
    ratelimit::lemma_burst_bounds(state);
    if state.buckets.contains_key(key) {
        let bucket = state.buckets[key];
        if !swept.buckets.contains_key(key) && time >= from {
            ratelimit_laws::law_level_grows_up_to_the_burst(state, key, time, time);
            if bucket.last_seen < from {
                lemma_balanced_fresh(state, state.burst, asked_then, time - from, k, a, w);
            } else if bucket.last_seen < time {
                lemma_balanced_refill(
                    state,
                    bucket,
                    time,
                    granted,
                    asked,
                    bucket.last_seen - from,
                    k,
                    a,
                    w,
                );
            } else {
                ratelimit_laws::law_no_time_no_refill(bucket, time, state.burst, state.per_sec);
                lemma_balanced_relaxes(
                    state,
                    state.burst,
                    granted,
                    asked,
                    asked_then,
                    time - from,
                    time - from,
                    k,
                    a,
                    w,
                );
            }
        }
    } else if time >= from {
        if now < from {
            lemma_balanced_fresh(state, state.burst, asked_then, time - from, k, a, w);
        } else {
            lemma_balanced_relaxes(
                state,
                state.burst,
                granted,
                if now > from {
                    asked + 1
                } else {
                    asked
                },
                asked_then,
                now - from,
                time - from,
                k,
                a,
                w,
            );
        }
    }
}

proof fn lemma_request_accounted(
    state: LimiterView,
    key: SourceKey,
    from: u128,
    now: u128,
    request: Request,
    granted: nat,
    asked: nat,
    k: nat,
    a: nat,
    w: nat,
)
    requires
        state.wf(),
        gain_bound(state.burst, state.per_sec, k, a, w),
        !state.resets(request.time),
        accounted(state, key, from, now, granted, asked, k, a, w),
        now <= request.time,
    ensures
        accounted(
            state.checked(request.key, request.time),
            key,
            from,
            request.time,
            granted + (if request.key == key && from <= request.time && state.granted(
                key,
                request.time,
            ) {
                1nat
            } else {
                0
            }),
            asked + (if request.key == key && from < request.time {
                1nat
            } else {
                0
            }),
            k,
            a,
            w,
        ),
{
    let time = request.time;
    let swept = state.swept(time);
    lemma_sweep_accounted(state, key, from, now, time, granted, asked, k, a, w);
    if request.key == key && time >= from {
        let u = binary64::per_one();
        let level = swept.level(key, time);
        let elapsed = time - from;
        let asked_then = if from < time {
            asked + 1
        } else {
            asked
        };
        ratelimit::lemma_burst_bounds(state);
        ratelimit_laws::law_sweep_keeps_every_level(state, key, time, time);
        ratelimit_laws::law_level_grows_up_to_the_burst(swept, key, time, time);
        binary64::lemma_order(level, state.burst);
        if swept.buckets.contains_key(key) {
            let bucket = swept.buckets[key];
            if bucket.last_seen < from {
                lemma_balanced_fresh(swept, level, asked_then, elapsed, k, a, w);
            } else if bucket.last_seen < time {
                lemma_balanced_refill(
                    swept,
                    bucket,
                    time,
                    granted,
                    asked,
                    bucket.last_seen - from,
                    k,
                    a,
                    w,
                );
            } else {
                ratelimit_laws::law_no_time_no_refill(bucket, time, state.burst, state.per_sec);
                lemma_balanced_relaxes(
                    swept,
                    level,
                    granted,
                    asked,
                    asked_then,
                    elapsed,
                    elapsed,
                    k,
                    a,
                    w,
                );
            }
        }
        assert(balanced(swept, level, granted, asked_then, elapsed, k, a, w));
        if state.granted(key, time) {
            binary64::lemma_minus_one_exact(level);
            assert((granted + 1) * u == granted * u + u) by (nonlinear_arith);
        }
    }
}

proof fn lemma_accounted(
    limiter: LimiterView,
    requests: Seq<Request>,
    key: SourceKey,
    start: u128,
    from: u128,
    to: u128,
    k: nat,
    a: nat,
    w: nat,
)
    requires
        limiter.wf(),
        gain_bound(limiter.burst, limiter.per_sec, k, a, w),
        limiter.buckets.contains_key(key) ==> limiter.buckets[key].last_seen <= start,
        in_order(start, requests),
        never_resets(limiter, requests),
        requests.len() > 0 ==> requests.last().time <= to,
    ensures
        after(limiter, requests).wf(),
        after(limiter, requests).burst == limiter.burst,
        after(limiter, requests).per_sec == limiter.per_sec,
        accounted(
            after(limiter, requests),
            key,
            from,
            end_time(start, requests),
            grants_between(limiter, requests, key, from, to),
            asked_between(requests, key, from, to),
            k,
            a,
            w,
        ),
    decreases requests.len(),
{
    if requests.len() == 0 {
        ratelimit::lemma_burst_bounds(limiter);
        if limiter.buckets.contains_key(key) {
            let bucket = limiter.buckets[key];
            binary64::lemma_order(bucket.tokens, limiter.burst);
            if bucket.last_seen >= from {
                lemma_balanced_fresh(
                    limiter,
                    bucket.tokens,
                    0,
                    bucket.last_seen - from,
                    k,
                    a,
                    w,
                );
            }
        } else if start >= from {
            lemma_balanced_fresh(
                limiter,
                limiter.burst,
                if start > from {
                    1
                } else {
                    0
                },
                start - from,
                k,
                a,
                w,
            );
        }
    } else {
        let earlier = requests.drop_last();
        let last = requests.last();
        lemma_accounted(limiter, earlier, key, start, from, to, k, a, w);
        ratelimit_laws::law_request_keeps_the_settings(after(limiter, earlier), last.key, last.time);
        lemma_request_accounted(
            after(limiter, earlier),
            key,
            from,
            end_time(start, earlier),
            last,
            grants_between(limiter, earlier, key, from, to),
            asked_between(earlier, key, from, to),
            k,
            a,
            w,
        );
    }
}

/// The bound on gains, taken over a whole sequence of requests.
proof fn lemma_grants_bound(
    limiter: LimiterView,
    requests: Seq<Request>,
    key: SourceKey,
    start: u128,
    from: u128,
    to: u128,
    k: nat,
    a: nat,
    w: nat,
)
    requires
        limiter.wf(),
        gain_bound(limiter.burst, limiter.per_sec, k, a, w),
        limiter.buckets.contains_key(key) ==> limiter.buckets[key].last_seen <= start,
        in_order(start, requests),
        never_resets(limiter, requests),
        from <= to,
    ensures
        k * (grants_between(limiter, requests, key, from, to) * binary64::per_one()) <= k
            * binary64::units(limiter.burst) + a * (binary64::units(limiter.per_sec) * (to - from))
            + asked_between(requests, key, from, to) * (w * binary64::units(limiter.burst)),
    decreases requests.len(),
{
    let granted = grants_between(limiter, requests, key, from, to);
    let asked = asked_between(requests, key, from, to);
    if granted == 0 {
        vstd::arithmetic::mul::lemma_mul_basics(pow2(0) as int);
        lemma_balanced_fresh(limiter, 0, asked, to - from, k, a, w);
    } else if requests.last().key != key || requests.last().time > to {
        lemma_grants_bound(limiter, requests.drop_last(), key, start, from, to, k, a, w);
    } else {
        lemma_accounted(limiter, requests, key, start, from, to, k, a, w);
        let state = after(limiter, requests);
        let tokens = state.buckets[key].tokens;
        lemma_balanced_relaxes(
            state,
            tokens,
            granted,
            asked,
            asked,
            requests.last().time - from,
            to - from,
            k,
            a,
            w,
        );
        let t = binary64::units(tokens);
        let g = granted * binary64::per_one();
        assert(k * g <= k * (t + g)) by (nonlinear_arith);
    }
}

/// With the sum rounded up by two to the power of -53 of the burst at most, a refill gives
/// what the rate gives and two to the power of -52 of the burst.
proof fn lemma_gain_with_slack(limiter: LimiterView)
    requires
        limiter.wf(),
    ensures
        gain_bound(
            limiter.burst,
            limiter.per_sec,
            4_503_599_627_370_496_000_000_000,
            0x10_0000_0000_0004,
            1_000_000_000,
        ),
{
    ratelimit::lemma_burst_bounds(limiter);
    binary64::lemma_one();
    binary64::lemma_order(binary64::ONE, limiter.burst);
    lemma2_to64();
    lemma_pow2_strictly_increases(64, 1074);
    assert forall|bucket: Bucket, now: u128|
        bucket.tokens <= limiter.burst && bucket.last_seen
            < now implies 4_503_599_627_370_496_000_000_000 * binary64::units(
        #[trigger] ratelimit::refilled(bucket, now, limiter.burst, limiter.per_sec),
    ) <= 4_503_599_627_370_496_000_000_000 * binary64::units(bucket.tokens)
        + 0x10_0000_0000_0004 * (binary64::units(limiter.per_sec) * (now - bucket.last_seen))
        + 1_000_000_000 * binary64::units(limiter.burst) by {
        let nanos = ratelimit::duration_since(now, bucket.last_seen);
        ratelimit_accuracy::lemma_earned(nanos, limiter.per_sec);
        ratelimit_accuracy::lemma_level(bucket, now, limiter.burst, limiter.per_sec);
    }
}

/// A rounded sum gains at most twice what is added, so that a refill gives at most twice
/// what the rate gives, up to two to the power of -50 of it.
proof fn lemma_gain_doubled(limiter: LimiterView)
    requires
        limiter.wf(),
        binary64::units(limiter.per_sec) >= pow2(100),
    ensures
        gain_bound(
            limiter.burst,
            limiter.per_sec,
            4_503_599_627_370_496_000_000_000,
            0x20_0000_0000_0008,
            0,
        ),
{
    ratelimit::lemma_burst_bounds(limiter);
    assert forall|bucket: Bucket, now: u128|
        bucket.tokens <= limiter.burst && bucket.last_seen
            < now implies 4_503_599_627_370_496_000_000_000 * binary64::units(
        #[trigger] ratelimit::refilled(bucket, now, limiter.burst, limiter.per_sec),
    ) <= 4_503_599_627_370_496_000_000_000 * binary64::units(bucket.tokens)
        + 0x20_0000_0000_0008 * (binary64::units(limiter.per_sec) * (now - bucket.last_seen)) + 0
        * binary64::units(limiter.burst) by {
        let nanos = ratelimit::duration_since(now, bucket.last_seen);
        ratelimit_accuracy::lemma_earned(nanos, limiter.per_sec);
        ratelimit_accuracy::lemma_level(bucket, now, limiter.burst, limiter.per_sec);
    }
}

/// The same where what the rate gives may be below the smallest normal number, and rounding
/// can double it.
proof fn lemma_gain_tiny(limiter: LimiterView)
    requires
        limiter.wf(),
    ensures
        gain_bound(limiter.burst, limiter.per_sec, 1_000_000_000, 5, 0),
{
    ratelimit::lemma_burst_bounds(limiter);
    let u = binary64::per_one();
    let r = binary64::units(limiter.per_sec);
    lemma_pow2_pos(1074);
    lemma2_to64();
    lemma2_to64_rest();
    lemma_pow2_adds(60, 39);
    assert forall|bucket: Bucket, now: u128|
        bucket.tokens <= limiter.burst && bucket.last_seen < now implies 1_000_000_000
        * binary64::units(
        #[trigger] ratelimit::refilled(bucket, now, limiter.burst, limiter.per_sec),
    ) <= 1_000_000_000 * binary64::units(bucket.tokens) + 5 * (r * (now - bucket.last_seen)) + 0
        * binary64::units(limiter.burst) by {
        let nanos = ratelimit::duration_since(now, bucket.last_seen);
        let seconds = ratelimit::as_secs(nanos);
        let s = binary64::units(seconds);
        let e = binary64::units(binary64::product(seconds, limiter.per_sec));
        let n = nanos / (NANOS_PER_SEC as nat);
        let f = nanos % (NANOS_PER_SEC as nat);
        binary64::lemma_seconds_error(n, f);
        binary64::lemma_round_at_most_doubles(s * r, u);
        ratelimit_accuracy::lemma_level(bucket, now, limiter.burst, limiter.per_sec);
        assert(2 * (e * 1_000_000_000) <= 5 * (r * nanos)) by (nonlinear_arith)
            requires
                e * u <= 2 * (s * r),
                4 * (s * 1_000_000_000) <= 5 * (nanos * u),
                u > 0,
        {
            assert((2 * (e * 1_000_000_000)) * u == 2 * ((e * u) * 1_000_000_000));
            assert(2 * ((2 * (s * r)) * 1_000_000_000) == (4 * (s * 1_000_000_000)) * r);
            assert((4 * (s * 1_000_000_000)) * r <= (5 * (nanos * u)) * r);
            assert((5 * (nanos * u)) * r == (5 * (r * nanos)) * u);
            assert((2 * (e * 1_000_000_000)) * u <= (5 * (r * nanos)) * u);
        }
    }
}

/// Nothing is asked after a time and up to the same time.
proof fn lemma_nothing_asked(requests: Seq<Request>, key: SourceKey, time: u128)
    ensures
        asked_between(requests, key, time, time) == 0,
    decreases requests.len(),
{
    if requests.len() > 0 {
        lemma_nothing_asked(requests.drop_last(), key, time);
    }
}

/// The limiter limits: in any time span a source is granted no more requests than the
/// burst and what the rate gives in that span, up to rounding, whoever else asks in between
/// and whatever is forgotten. Rounding adds at most two to the power of -50 to what the rate
/// gives, and two to the power of -52 of the burst for each request of the source after the
/// beginning of the span. At a single moment it is the burst exactly.
///
/// The counts are weighed by two to the power of 52 and by a billion, so that both sides
/// are whole.
pub proof fn law_grants_are_limited(
    limiter: LimiterView,
    requests: Seq<Request>,
    key: SourceKey,
    start: u128,
    from: u128,
    to: u128,
)
    requires
        limiter.wf(),
        limiter.buckets.contains_key(key) ==> limiter.buckets[key].last_seen <= start,
        in_order(start, requests),
        never_resets(limiter, requests),
        from <= to,
    ensures
        0x10_0000_0000_0000 * (grants_between(limiter, requests, key, from, to)
            * binary64::per_one() * NANOS_PER_SEC) <= 0x10_0000_0000_0000 * (binary64::units(
            limiter.burst,
        ) * NANOS_PER_SEC) + 0x10_0000_0000_0004 * (binary64::units(limiter.per_sec) * (to - from))
            + asked_between(requests, key, from, to) * (binary64::units(limiter.burst)
            * NANOS_PER_SEC),
        from == to ==> grants_between(limiter, requests, key, from, to) * binary64::per_one()
            <= binary64::units(limiter.burst),
{
    lemma_gain_with_slack(limiter);
    lemma_grants_bound(
        limiter,
        requests,
        key,
        start,
        from,
        to,
        4_503_599_627_370_496_000_000_000,
        0x10_0000_0000_0004,
        1_000_000_000,
    );
    if from == to {
        lemma_nothing_asked(requests, key, from);
        vstd::arithmetic::mul::lemma_mul_basics(binary64::units(limiter.per_sec) as int);
        let b = binary64::units(limiter.burst);
        vstd::arithmetic::mul::lemma_mul_basics((1_000_000_000 * b) as int);
    }
}

/// However often a source asks, in any time span it is granted no more requests than the
/// burst and twice what the rate gives in that span, up to two to the power of -50 of it. A
/// source that asks again before anything else than the last digit of its tokens has
/// refilled can gain by rounding, but by no more than this factor.
///
/// The counts are weighed by two to the power of 52 and by a billion, so that both sides
/// are whole.
pub proof fn law_asking_often_at_most_doubles_the_rate(
    limiter: LimiterView,
    requests: Seq<Request>,
    key: SourceKey,
    start: u128,
    from: u128,
    to: u128,
)
    requires
        limiter.wf(),
        limiter.buckets.contains_key(key) ==> limiter.buckets[key].last_seen <= start,
        in_order(start, requests),
        never_resets(limiter, requests),
        from <= to,
    ensures
        0x10_0000_0000_0000 * (grants_between(limiter, requests, key, from, to)
            * binary64::per_one() * NANOS_PER_SEC) <= 0x10_0000_0000_0000 * (binary64::units(
            limiter.burst,
        ) * NANOS_PER_SEC) + 0x20_0000_0000_0008 * (binary64::units(limiter.per_sec) * (to - from)),
{
    let granted = grants_between(limiter, requests, key, from, to);
    let asked = asked_between(requests, key, from, to);
    let r = binary64::units(limiter.per_sec);
    let u = binary64::per_one();
    vstd::arithmetic::mul::lemma_mul_basics(asked as int);
    vstd::arithmetic::mul::lemma_mul_basics(binary64::units(limiter.burst) as int);
    if r >= pow2(100) {
        lemma_gain_doubled(limiter);
        lemma_grants_bound(
            limiter,
            requests,
            key,
            start,
            from,
            to,
            4_503_599_627_370_496_000_000_000,
            0x20_0000_0000_0008,
            0,
        );
    } else {
        // too slow to give a token in any span of time
        lemma_gain_tiny(limiter);
        lemma_grants_bound(limiter, requests, key, start, from, to, 1_000_000_000, 5, 0);
        lemma2_to64();
        lemma_pow2_adds(64, 64);
        lemma_pow2_adds(100, 128);
        lemma_pow2_adds(228, 3);
        lemma_pow2_strictly_increases(231, 1074);
        let span = to - from;
        assert(r * span <= pow2(100) * pow2(128)) by (nonlinear_arith)
            requires
                0 <= r <= pow2(100),
                0 <= span <= pow2(128),
        ;
        assert(r * span >= 0) by (nonlinear_arith)
            requires
                r >= 0,
                span >= 0,
        ;
        let n = choose|n: u32| n >= 1 && limiter.burst == #[trigger] binary64::ratio(n as nat, 1);
        binary64::lemma_whole_exact(n as nat);
        assert(granted <= n) by (nonlinear_arith)
            requires
                granted * u < n * u + u,
                u > 0,
        ;
        assert(granted * u <= n * u) by (nonlinear_arith)
            requires
                granted <= n,
        ;
    }
}

} // verus!
