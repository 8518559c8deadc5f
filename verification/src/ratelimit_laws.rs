//! What holds of every limiter.

use crate::binary64;
use crate::binary64::{INFINITY, ONE};
use crate::ratelimit;
use crate::ratelimit::{
    Bucket, IpAddr, LimiterView, SourceKey, HARD_MAX, NANOS_PER_SEC, SWEEP_THRESHOLD,
};
use vstd::prelude::*;

verus! {

/// No two addresses share a bucket.
pub proof fn law_addresses_have_their_own_bucket(a: IpAddr, b: IpAddr)
    ensures
        a.key() == b.key() <==> a == b,
{
}

/// A longer duration is not fewer seconds.
pub proof fn law_seconds_follow_time(short: nat, long: nat)
    requires
        short <= long,
    ensures
        ratelimit::as_secs(short) <= ratelimit::as_secs(long) <= INFINITY,
{
    let n = NANOS_PER_SEC as nat;
    vstd::arithmetic::div_mod::lemma_div_is_ordered(short as int, long as int, n as int);
    binary64::lemma_seconds_monotonic(short / n, short % n, long / n, long % n);
    binary64::lemma_sum_bound(
        binary64::ratio(long / n, 1),
        binary64::ratio(long % n, n),
    );
}

/// Waiting never loses tokens, and no wait gives more than the burst.
pub proof fn law_tokens_grow_up_to_the_burst(
    bucket: Bucket,
    now: u128,
    later: u128,
    burst: u64,
    per_sec: u64,
)
    requires
        bucket.tokens <= INFINITY,
        burst <= INFINITY,
        now <= later,
    ensures
        ratelimit::refilled(bucket, now, burst, per_sec) <= ratelimit::refilled(
            bucket,
            later,
            burst,
            per_sec,
        ) <= burst,
{
    let short = ratelimit::duration_since(now, bucket.last_seen);
    let long = ratelimit::duration_since(later, bucket.last_seen);
    law_seconds_follow_time(short, long);
    let a = binary64::product(ratelimit::as_secs(short), per_sec);
    let b = binary64::product(ratelimit::as_secs(long), per_sec);
    binary64::lemma_product_monotonic(ratelimit::as_secs(short), ratelimit::as_secs(long), per_sec);
    binary64::lemma_product_bound(ratelimit::as_secs(long), per_sec);
    binary64::lemma_sum_monotonic(bucket.tokens, a, bucket.tokens, b);
    binary64::lemma_sum_bound(bucket.tokens, b);
    binary64::lemma_order(binary64::sum(bucket.tokens, a), burst);
    binary64::lemma_order(binary64::sum(bucket.tokens, b), burst);
}

/// At the moment of its last request a bucket holds what was left then.
pub proof fn law_no_time_no_refill(bucket: Bucket, now: u128, burst: u64, per_sec: u64)
    requires
        bucket.tokens <= burst <= INFINITY,
        now <= bucket.last_seen,
    ensures
        ratelimit::refilled(bucket, now, burst, per_sec) == bucket.tokens,
{
    binary64::lemma_ratio_zero(1);
    binary64::lemma_ratio_zero(NANOS_PER_SEC as nat);
    binary64::lemma_sum_zero(0);
    assert(ratelimit::as_secs(0) == 0);
    binary64::lemma_product_zero(per_sec);
    binary64::lemma_sum_zero(bucket.tokens);
    binary64::lemma_order(bucket.tokens, burst);
}

/// A source never has more than the burst, and never loses tokens while it waits.
pub proof fn law_level_grows_up_to_the_burst(
    limiter: LimiterView,
    key: SourceKey,
    now: u128,
    later: u128,
)
    requires
        limiter.wf(),
        now <= later,
    ensures
        limiter.level(key, now) <= limiter.level(key, later) <= limiter.burst,
{
    ratelimit::lemma_burst_bounds(limiter);
    if limiter.buckets.contains_key(key) {
        law_tokens_grow_up_to_the_burst(
            limiter.buckets[key],
            now,
            later,
            limiter.burst,
            limiter.per_sec,
        );
    }
}

/// A bucket that has refilled to the cap carries no state that a fresh one would not:
/// from then on its source has the burst, as it would without the bucket.
pub proof fn law_full_bucket_is_like_a_fresh_one(
    limiter: LimiterView,
    key: SourceKey,
    now: u128,
    later: u128,
)
    requires
        limiter.wf(),
        limiter.level(key, now) == limiter.burst,
        now <= later,
    ensures
        limiter.level(key, later) == limiter.burst,
        (LimiterView { buckets: limiter.buckets.remove(key), ..limiter }).level(key, later)
            == limiter.burst,
{
    law_level_grows_up_to_the_burst(limiter, key, now, later);
}

/// A sweep takes nothing from any source and gives nothing to it, unless it is the
/// backstop that drops the whole table, after which every source has the burst.
pub proof fn law_sweep_keeps_every_level(
    limiter: LimiterView,
    key: SourceKey,
    now: u128,
    later: u128,
)
    requires
        limiter.wf(),
        now <= later,
    ensures
        limiter.swept(now).wf(),
        !limiter.resets(now) ==> limiter.swept(now).level(key, later) == limiter.level(key, later),
        limiter.resets(now) ==> limiter.swept(now).level(key, later) == limiter.burst,
{
    law_level_grows_up_to_the_burst(limiter, key, now, later);
    law_level_grows_up_to_the_burst(limiter, key, now, now);
    assert(limiter.in_debt(now).dom().subset_of(limiter.buckets.dom()));
    vstd::set_lib::lemma_set_subset_finite(limiter.buckets.dom(), limiter.in_debt(now).dom());
}

/// Sweeping right before a request changes neither its outcome nor the state after it.
pub proof fn law_sweeping_first_changes_nothing(limiter: LimiterView, key: SourceKey, now: u128)
    ensures
        limiter.swept(now).granted(key, now) == limiter.granted(key, now),
        limiter.swept(now).checked(key, now) == limiter.checked(key, now),
{
    assert(limiter.swept(now).swept(now) == limiter.swept(now));
}

/// A request leaves a limiter well-formed and its settings as they were.
pub proof fn law_request_keeps_the_settings(limiter: LimiterView, key: SourceKey, now: u128)
    requires
        limiter.wf(),
    ensures
        limiter.checked(key, now).wf(),
        limiter.checked(key, now).burst == limiter.burst,
        limiter.checked(key, now).per_sec == limiter.per_sec,
{
    let swept = limiter.swept(now);
    law_sweep_keeps_every_level(limiter, key, now, now);
    law_level_grows_up_to_the_burst(swept, key, now, now);
    ratelimit::lemma_burst_bounds(limiter);
    if swept.level(key, now) >= ONE {
        binary64::lemma_minus_one_exact(swept.level(key, now));
    }
}

/// A request is granted if and only if its source has a whole token, counting what it
/// regained since its last request. Only where the whole table is dropped is it
/// granted in any case.
pub proof fn law_a_whole_token_decides(limiter: LimiterView, key: SourceKey, now: u128)
    requires
        limiter.wf(),
    ensures
        !limiter.resets(now) ==> (limiter.granted(key, now) <==> binary64::units(
            limiter.level(key, now),
        ) >= binary64::per_one()),
        limiter.resets(now) ==> limiter.granted(key, now),
{
    law_sweep_keeps_every_level(limiter, key, now, now);
    law_level_grows_up_to_the_burst(limiter, key, now, now);
    ratelimit::lemma_burst_bounds(limiter);
    binary64::lemma_one();
    binary64::lemma_order(ONE, limiter.level(key, now));
}

/// A granted request takes exactly one token, a denied one takes none.
pub proof fn law_a_grant_takes_one_token(limiter: LimiterView, key: SourceKey, now: u128)
    requires
        limiter.wf(),
        !limiter.resets(now),
    ensures
        binary64::units(limiter.checked(key, now).level(key, now)) == binary64::units(
            limiter.level(key, now),
        ) - (if limiter.granted(key, now) {
            binary64::per_one() as int
        } else {
            0
        }),
{
    let after = limiter.checked(key, now);
    law_sweep_keeps_every_level(limiter, key, now, now);
    law_request_keeps_the_settings(limiter, key, now);
    law_level_grows_up_to_the_burst(limiter, key, now, now);
    ratelimit::lemma_burst_bounds(limiter);
    assert(after.buckets.contains_key(key));
    law_no_time_no_refill(after.buckets[key], now, after.burst, after.per_sec);
    if limiter.granted(key, now) {
        binary64::lemma_minus_one_exact(limiter.level(key, now));
    }
}

/// A request of one source changes nothing for another.
pub proof fn law_sources_are_independent(
    limiter: LimiterView,
    key: SourceKey,
    other: SourceKey,
    now: u128,
    later: u128,
)
    requires
        limiter.wf(),
        !limiter.resets(now),
        key != other,
        now <= later,
    ensures
        limiter.checked(key, now).level(other, later) == limiter.level(other, later),
{
    law_sweep_keeps_every_level(limiter, other, now, later);
}

/// A source that is not tracked is always served, whatever the limiter was made with.
pub proof fn law_a_new_source_is_served(limiter: LimiterView, key: SourceKey, now: u128)
    requires
        limiter.wf(),
        !limiter.buckets.contains_key(key),
    ensures
        limiter.granted(key, now),
{
    ratelimit::lemma_burst_bounds(limiter);
}

/// A source that has waited until a whole token was regained is served: the limiter
/// never latches shut.
pub proof fn law_waiting_for_a_token_is_enough(limiter: LimiterView, key: SourceKey, now: u128)
    requires
        limiter.wf(),
        limiter.buckets.contains_key(key),
        binary64::product(
            ratelimit::as_secs(ratelimit::duration_since(now, limiter.buckets[key].last_seen)),
            limiter.per_sec,
        ) >= ONE,
    ensures
        limiter.granted(key, now),
{
    ratelimit::lemma_burst_bounds(limiter);
    law_a_whole_token_decides(limiter, key, now);
    let bucket = limiter.buckets[key];
    let earned = binary64::product(
        ratelimit::as_secs(ratelimit::duration_since(now, bucket.last_seen)),
        limiter.per_sec,
    );
    binary64::lemma_product_bound(
        ratelimit::as_secs(ratelimit::duration_since(now, bucket.last_seen)),
        limiter.per_sec,
    );
    binary64::lemma_sum_bound(bucket.tokens, earned);
    binary64::lemma_sum_zero(earned);
    binary64::lemma_sum_monotonic(0, earned, bucket.tokens, earned);
    binary64::lemma_one();
    binary64::lemma_order(ONE, limiter.level(key, now));
    binary64::lemma_order(binary64::sum(bucket.tokens, earned), limiter.burst);
}

/// A request adds at most its own source to the table.
pub proof fn law_table_grows_by_one(limiter: LimiterView, key: SourceKey, now: u128)
    requires
        limiter.wf(),
    ensures
        limiter.checked(key, now).buckets.len() <= limiter.buckets.len() + 1,
        limiter.checked(key, now).buckets.dom().subset_of(limiter.buckets.dom().insert(key)),
{
    let swept = limiter.swept(now);
    law_sweep_keeps_every_level(limiter, key, now, now);
    assert(swept.buckets.dom().subset_of(limiter.buckets.dom()));
    vstd::set_lib::lemma_len_subset(swept.buckets.dom(), limiter.buckets.dom());
}

/// After a sweep only the requesting source and sources that still carry debt are
/// tracked, and no more than the backstop allows.
pub proof fn law_sweep_bounds_the_table(
    limiter: LimiterView,
    key: SourceKey,
    other: SourceKey,
    now: u128,
)
    requires
        limiter.wf(),
        limiter.sweep_due(now),
    ensures
        limiter.checked(key, now).buckets.len() <= HARD_MAX + 1,
        limiter.checked(key, now).last_sweep == now,
        limiter.checked(key, now).buckets.contains_key(other) && other != key ==> {
            &&& limiter.buckets.contains_key(other)
            &&& limiter.level(other, now) < limiter.burst
        },
{
    law_sweep_keeps_every_level(limiter, key, now, now);
}

/// Once every tracked source has refilled, a sweep leaves none but the requesting one.
pub proof fn law_refilled_table_is_reclaimed(limiter: LimiterView, key: SourceKey, now: u128)
    requires
        limiter.wf(),
        limiter.sweep_due(now),
        forall|other: SourceKey| #[trigger]
            limiter.buckets.contains_key(other) ==> limiter.level(other, now) == limiter.burst,
    ensures
        limiter.checked(key, now).buckets.dom() == set![key],
        limiter.checked(key, now).buckets.len() == 1,
{
    assert(limiter.in_debt(now).dom() =~= Set::<SourceKey>::empty());
    assert(limiter.swept(now).buckets.dom() =~= Set::<SourceKey>::empty());
    assert(limiter.checked(key, now).buckets.dom() =~= set![key]);
}

/// From `now` on the two limiters treat every source alike.
pub open spec fn alike(a: LimiterView, b: LimiterView, now: u128) -> bool {
    &&& a.burst == b.burst
    &&& a.per_sec == b.per_sec
    &&& forall|key: SourceKey, later: u128|
        now <= later ==> #[trigger] a.level(key, later) == b.level(key, later)
}

/// Which buckets a limiter has forgotten cannot be told from what it grants: two
/// limiters that treat every source alike go on doing so, one sweeping at a request
/// where the other does not.
pub proof fn law_forgetting_cannot_be_observed(
    a: LimiterView,
    b: LimiterView,
    key: SourceKey,
    now: u128,
)
    requires
        a.wf(),
        b.wf(),
        alike(a, b, now),
        !a.resets(now),
        !b.resets(now),
    ensures
        a.granted(key, now) == b.granted(key, now),
        alike(a.checked(key, now), b.checked(key, now), now),
{
    law_sweep_keeps_every_level(a, key, now, now);
    law_sweep_keeps_every_level(b, key, now, now);
    assert(a.level(key, now) == b.level(key, now));
    assert forall|other: SourceKey, later: u128| now <= later implies #[trigger] a.checked(
        key,
        now,
    ).level(other, later) == b.checked(key, now).level(other, later) by {
        if other != key {
            law_sources_are_independent(a, key, other, now, later);
            law_sources_are_independent(b, key, other, now, later);
            assert(a.level(other, later) == b.level(other, later));
        }
    }
}

/// The state after `count` requests of one source at one time.
pub open spec fn repeated(
    limiter: LimiterView,
    key: SourceKey,
    now: u128,
    count: nat,
) -> LimiterView
    decreases count,
{
    if count == 0 {
        limiter
    } else {
        repeated(limiter, key, now, (count - 1) as nat).checked(key, now)
    }
}

proof fn lemma_repeated(limiter: LimiterView, key: SourceKey, now: u128, count: nat)
    requires
        limiter.wf(),
        !limiter.resets(now) || limiter.level(key, now) == limiter.burst,
    ensures
        ({
            let state = repeated(limiter, key, now, count);
            let first = binary64::units(limiter.level(key, now));
            let last = binary64::units(state.level(key, now));
            &&& state.wf()
            &&& state.burst == limiter.burst
            &&& count > 0 ==> ratelimit::duration_since(now, state.last_sweep)
                < ratelimit::SWEEP_INTERVAL || state.buckets.len() <= SWEEP_THRESHOLD + 1
            &&& first >= count * binary64::per_one() ==> last == first - count
                * binary64::per_one()
            &&& first < count * binary64::per_one() ==> last < binary64::per_one()
        }),
    decreases count,
{
    let u = binary64::per_one();
    if count == 0 {
        vstd::arithmetic::mul::lemma_mul_basics(u as int);
    } else {
        let before = repeated(limiter, key, now, (count - 1) as nat);
        let state = repeated(limiter, key, now, count);
        lemma_repeated(limiter, key, now, (count - 1) as nat);
        law_request_keeps_the_settings(before, key, now);
        law_table_grows_by_one(before, key, now);
        lemma_debt_is_part(before, now);
        law_a_whole_token_decides(before, key, now);
        if before.resets(now) {
            law_sweep_keeps_every_level(before, key, now, now);
            ratelimit::lemma_burst_bounds(before);
            binary64::lemma_minus_one_exact(before.burst);
            law_no_time_no_refill(state.buckets[key], now, state.burst, state.per_sec);
        } else {
            law_a_grant_takes_one_token(before, key, now);
        }
        assert(count * u == (count - 1) * u + u) by (nonlinear_arith);
    }
}

proof fn lemma_debt_is_part(limiter: LimiterView, now: u128)
    requires
        limiter.wf(),
    ensures
        limiter.in_debt(now).len() <= limiter.buckets.len(),
{
    assert(limiter.in_debt(now).dom().subset_of(limiter.buckets.dom()));
    vstd::set_lib::lemma_len_subset(limiter.in_debt(now).dom(), limiter.buckets.dom());
}

/// Of the requests of a source at one time as many are granted as it has whole tokens,
/// and then it is throttled.
pub proof fn law_whole_tokens_are_spent(
    limiter: LimiterView,
    key: SourceKey,
    now: u128,
    count: nat,
)
    requires
        limiter.wf(),
        !limiter.resets(now) || limiter.level(key, now) == limiter.burst,
    ensures
        repeated(limiter, key, now, count).granted(key, now) <==> binary64::units(
            limiter.level(key, now),
        ) >= (count + 1) * binary64::per_one(),
{
    let u = binary64::per_one();
    let state = repeated(limiter, key, now, count);
    lemma_repeated(limiter, key, now, count);
    lemma_debt_is_part(state, now);
    law_a_whole_token_decides(state, key, now);
    assert((count + 1) * u == count * u + u) by (nonlinear_arith);
    if state.resets(now) {
        assert(count == 0);
        ratelimit::lemma_burst_bounds(limiter);
        binary64::lemma_one();
        binary64::lemma_order(ONE, limiter.burst);
    }
}

/// The burst can be spent at once, and then the source is throttled: of the requests
/// of a source with a full bucket at one time, as many are granted as the burst holds
/// tokens.
pub proof fn law_burst_then_throttle(
    limiter: LimiterView,
    key: SourceKey,
    now: u128,
    n: u32,
    count: nat,
)
    requires
        limiter.wf(),
        limiter.burst == binary64::ratio(n as nat, 1),
        limiter.level(key, now) == limiter.burst,
    ensures
        repeated(limiter, key, now, count).granted(key, now) <==> count < n,
{
    let u = binary64::per_one();
    law_whole_tokens_are_spent(limiter, key, now, count);
    binary64::lemma_whole_exact(n as nat);
    vstd::arithmetic::power2::lemma_pow2_pos(1074);
    assert(count < n <==> n * u >= (count + 1) * u) by (nonlinear_arith)
        requires
            u > 0,
    ;
}

} // verus!
