//! What one request, one sweep and a new limiter do, in terms of the buckets before and
//! after.

use crate::binary64;
use crate::binary64::INFINITY;
use crate::ratelimit;
use crate::ratelimit::{AuthRateLimiter, Bucket, IpAddr, LayerAction, LimiterView, SourceKey};
use crate::ratelimit_accuracy;
use crate::ratelimit_accuracy::within_rounding;
use crate::ratelimit_laws;
use crate::ratelimit_laws::repeated;
use crate::ratelimit_throughput::{after, never_resets, Request};
use vstd::arithmetic::power2::*;
use vstd::prelude::*;

verus! {

/// Nanoseconds that a bucket has been left alone at `now`.
pub open spec fn waited(bucket: Bucket, now: u128) -> nat {
    if bucket.last_seen <= now {
        (now - bucket.last_seen) as nat
    } else {
        0
    }
}

/// What a source would have at `now` if nothing were rounded, in billionths of a unit: the
/// tokens of its bucket and the rate for every second since its last request, at most the
/// burst; and the burst if it has no bucket.
pub open spec fn exact_level(limiter: LimiterView, key: SourceKey, now: u128) -> int {
    let cap = binary64::units(limiter.burst) * 1_000_000_000;
    if limiter.buckets.contains_key(key) {
        let bucket = limiter.buckets[key];
        let filled = binary64::units(bucket.tokens) * 1_000_000_000 + binary64::units(
            limiter.per_sec,
        ) * waited(bucket, now);
        if filled <= cap {
            filled as int
        } else {
            cap as int
        }
    } else {
        cap as int
    }
}

/// Of every source, whatever its address, the level is the capped exact refill of its
/// bucket, up to the rounding of one refill; and it is the burst itself once the refill
/// exceeds that by the rounding, and where there is no bucket.
pub proof fn law_level_is_the_exact_refill(limiter: LimiterView, key: SourceKey, now: u128)
    requires
        limiter.wf(),
    ensures
        within_rounding(
            binary64::units(limiter.level(key, now)) * 1_000_000_000int,
            exact_level(limiter, key, now),
            limiter.burst,
            1,
        ),
        !limiter.buckets.contains_key(key) ==> limiter.level(key, now) == limiter.burst,
        limiter.buckets.contains_key(key) && 0x1_0000_0000_0000 * (binary64::units(
            limiter.buckets[key].tokens,
        ) * 1_000_000_000 + binary64::units(limiter.per_sec) * waited(limiter.buckets[key], now)
            - binary64::units(limiter.burst) * 1_000_000_000) > (binary64::units(limiter.burst)
            + 0x1_0000_0000_0000) * 1_000_000_000 ==> limiter.level(key, now) == limiter.burst,
{
    ratelimit::lemma_burst_bounds(limiter);
    ratelimit_laws::law_level_grows_up_to_the_burst(limiter, key, now, now);
    binary64::lemma_order(limiter.level(key, now), limiter.burst);
    if limiter.buckets.contains_key(key) {
        let bucket = limiter.buckets[key];
        ratelimit_accuracy::law_refill_is_exact_up_to_rounding(
            bucket,
            now,
            limiter.burst,
            limiter.per_sec,
        );
        ratelimit_accuracy::law_refill_reaches_the_burst(
            bucket,
            now,
            limiter.burst,
            limiter.per_sec,
        );
    }
}

/// A refill rounds to the nearest number once for the whole seconds, for the fraction of a
/// second, for their sum, for what the rate gives in that time and for the tokens with it;
/// and nothing else changes it but the burst.
pub proof fn law_refill_rounds_each_step(
    bucket: &Bucket,
    now: u128,
    burst: u64,
    per_sec: u64,
    whole: u64,
    fraction: u64,
    seconds: u64,
    earned: u64,
    filled: u64,
    tokens: u64,
)
    requires
        bucket.tokens <= INFINITY,
        burst <= INFINITY,
        per_sec < INFINITY,
        binary64::is_nearest(
            (waited(*bucket, now) / 1_000_000_000) * binary64::per_one(),
            1,
            whole,
        ),
        binary64::is_nearest(
            (waited(*bucket, now) % 1_000_000_000) * binary64::per_one(),
            1_000_000_000,
            fraction,
        ),
        binary64::is_nearest(binary64::units(whole) + binary64::units(fraction), 1, seconds),
        binary64::is_nearest(
            binary64::units(seconds) * binary64::units(per_sec),
            binary64::per_one(),
            earned,
        ),
        binary64::is_nearest(binary64::units(bucket.tokens) + binary64::units(earned), 1, filled),
        call_ensures(ratelimit::refilled_tokens, (bucket, now, burst, per_sec), tokens),
    ensures
        tokens == if filled <= burst {
            filled
        } else {
            burst
        },
{
    let nanos = waited(*bucket, now);
    lemma_pow2_pos(1074);
    binary64::lemma_round_is((nanos / 1_000_000_000) * binary64::per_one(), 1, whole);
    binary64::lemma_round_is(
        (nanos % 1_000_000_000) * binary64::per_one(),
        1_000_000_000,
        fraction,
    );
    binary64::lemma_round_is(binary64::units(whole) + binary64::units(fraction), 1, seconds);
    binary64::lemma_round_is(
        binary64::units(seconds) * binary64::units(per_sec),
        binary64::per_one(),
        earned,
    );
    binary64::lemma_round_is(binary64::units(bucket.tokens) + binary64::units(earned), 1, filled);
    binary64::lemma_order(filled, burst);
}

/// A source with a bucket has what the bucket has been refilled to, whatever its address and
/// whatever else is tracked.
pub proof fn law_level_is_that_of_the_bucket(
    limiter: LimiterView,
    key: SourceKey,
    now: u128,
    bucket: &Bucket,
    tokens: u64,
)
    requires
        limiter.wf(),
        limiter.buckets.contains_key(key),
        *bucket == limiter.buckets[key],
        call_ensures(
            ratelimit::refilled_tokens,
            (bucket, now, limiter.burst, limiter.per_sec),
            tokens,
        ),
    ensures
        limiter.level(key, now) == tokens,
{
}

/// The tracked sources that have not refilled to the burst at `now`.
pub open spec fn debtors(limiter: LimiterView, now: u128) -> Set<SourceKey> {
    limiter.buckets.dom().filter(|key: SourceKey| limiter.level(key, now) < limiter.burst)
}

/// Less than a minute has passed since the last sweep, or no more than 8192 sources are
/// tracked.
pub open spec fn too_early_to_sweep(limiter: LimiterView, now: u128) -> bool {
    now - limiter.last_sweep < 60_000_000_000 || limiter.buckets.len() <= 8192
}

/// More than 262144 sources are in debt when a sweep is due.
pub open spec fn beyond_backstop(limiter: LimiterView, now: u128) -> bool {
    !too_early_to_sweep(limiter, now) && debtors(limiter, now).len() > 262_144
}

proof fn lemma_debtors(limiter: LimiterView, now: u128)
    requires
        limiter.wf(),
    ensures
        limiter.in_debt(now).dom() == debtors(limiter, now),
        limiter.in_debt(now).len() == debtors(limiter, now).len(),
        debtors(limiter, now).len() <= limiter.buckets.len(),
        limiter.sweep_due(now) <==> !too_early_to_sweep(limiter, now),
        limiter.resets(now) <==> beyond_backstop(limiter, now),
{
    assert(limiter.in_debt(now).dom() =~= debtors(limiter, now));
    vstd::set_lib::lemma_len_subset(debtors(limiter, now), limiter.buckets.dom());
}

/// The whole table is dropped only as a backstop: at a request or a sweep exactly if it is
/// time to sweep and more than 262144 tracked sources are below the burst. However many
/// sources were tracked before, those that have refilled do not count.
pub proof fn law_reset_is_a_backstop(limiter: LimiterView, now: u128)
    requires
        limiter.wf(),
    ensures
        limiter.resets(now) <==> {
            &&& now - limiter.last_sweep >= 60_000_000_000
            &&& limiter.buckets.len() > 8192
            &&& debtors(limiter, now).len() > 262_144
        },
        limiter.buckets.len() <= 262_144 ==> !limiter.resets(now),
{
    lemma_debtors(limiter, now);
}

/// A sweep forgets the sources that have refilled and keeps the others as they are. It does
/// nothing where it is too early, and drops everything where too many are in debt, which it
/// then reports.
pub proof fn law_sweep_forgets_the_refilled(
    limiter: &mut AuthRateLimiter,
    now: u128,
    dropped: Option<usize>,
)
    requires
        old(limiter)@.wf(),
        call_ensures(AuthRateLimiter::sweep, (limiter, now), dropped),
    ensures
        final(limiter)@.wf(),
        final(limiter)@.burst == old(limiter)@.burst,
        final(limiter)@.per_sec == old(limiter)@.per_sec,
        too_early_to_sweep(old(limiter)@, now) ==> {
            &&& dropped is None
            &&& final(limiter)@ == old(limiter)@
        },
        !too_early_to_sweep(old(limiter)@, now) ==> final(limiter)@.last_sweep == now,
        !too_early_to_sweep(old(limiter)@, now) && debtors(old(limiter)@, now).len() <= 262_144
            ==> {
            &&& dropped is None
            &&& final(limiter)@.buckets.dom() == debtors(old(limiter)@, now)
            &&& forall|key: SourceKey|
                debtors(old(limiter)@, now).contains(key)
                    ==> #[trigger] final(limiter)@.buckets[key] == old(limiter)@.buckets[key]
        },
        !too_early_to_sweep(old(limiter)@, now) && debtors(old(limiter)@, now).len() > 262_144
            ==> {
            &&& dropped matches Some(count) && count == debtors(old(limiter)@, now).len()
            &&& final(limiter)@.buckets.dom() == Set::<SourceKey>::empty()
        },
{
    lemma_debtors(old(limiter)@, now);
    assert(forall|key: SourceKey|
        debtors(old(limiter)@, now).contains(key) ==> #[trigger] old(limiter)@.in_debt(
            now,
        ).contains_key(key));
}

/// Another source keeps its bucket as it is, unless that has refilled when a sweep is due,
/// or too many are in debt then. A request adds no bucket but that of its own source.
pub proof fn law_other_buckets_stay(
    limiter: &mut AuthRateLimiter,
    addr: IpAddr,
    now: u128,
    granted: bool,
    other: SourceKey,
)
    requires
        old(limiter)@.wf(),
        other != addr.key(),
        call_ensures(AuthRateLimiter::check, (limiter, addr, now), granted),
    ensures
        final(limiter)@.buckets.contains_key(other) <==> {
            &&& old(limiter)@.buckets.contains_key(other)
            &&& too_early_to_sweep(old(limiter)@, now) || old(limiter)@.level(other, now) < old(
                limiter,
            )@.burst
            &&& !beyond_backstop(old(limiter)@, now)
        },
        final(limiter)@.buckets.contains_key(other) ==> final(limiter)@.buckets[other] == old(
            limiter,
        )@.buckets[other],
{
    lemma_debtors(old(limiter)@, now);
    assert(debtors(old(limiter)@, now).contains(other) <==> old(limiter)@.in_debt(
        now,
    ).contains_key(other));
}

/// A source in debt stays in debt through the requests of others, with its bucket unchanged,
/// if not more than 262144 sources are in debt.
pub proof fn law_debt_is_kept(
    limiter: &mut AuthRateLimiter,
    addr: IpAddr,
    now: u128,
    granted: bool,
    other: SourceKey,
)
    requires
        old(limiter)@.wf(),
        debtors(old(limiter)@, now).contains(other),
        debtors(old(limiter)@, now).len() <= 262_144,
        call_ensures(AuthRateLimiter::check, (limiter, addr, now), granted),
    ensures
        final(limiter)@.buckets.contains_key(other),
        other != addr.key() ==> final(limiter)@.buckets[other] == old(limiter)@.buckets[other],
        other == addr.key() ==> (granted <==> binary64::units(old(limiter)@.level(other, now))
            >= pow2(1074)),
{
    lemma_debtors(old(limiter)@, now);
    if other == addr.key() {
        law_a_request_takes_a_whole_token(limiter, addr, now, granted);
    } else {
        law_other_buckets_stay(limiter, addr, now, granted, other);
    }
}

/// A request is granted exactly if its source has a whole token at that time. It then takes
/// exactly one token, and otherwise none; and what is left counts from that time. Where the
/// backstop has dropped the table, the source has the burst.
pub proof fn law_a_request_takes_a_whole_token(
    limiter: &mut AuthRateLimiter,
    addr: IpAddr,
    now: u128,
    granted: bool,
)
    requires
        old(limiter)@.wf(),
        call_ensures(AuthRateLimiter::check, (limiter, addr, now), granted),
    ensures
        ({
            let held = if beyond_backstop(old(limiter)@, now) {
                old(limiter)@.burst
            } else {
                old(limiter)@.level(addr.key(), now)
            };
            let left = final(limiter)@.buckets[addr.key()];
            &&& granted <==> binary64::units(held) >= pow2(1074)
            &&& final(limiter)@.buckets.contains_key(addr.key())
            &&& left.last_seen == now
            &&& granted ==> binary64::units(left.tokens) == binary64::units(held) - pow2(1074)
            &&& !granted ==> left.tokens == held
        }),
        final(limiter)@.wf(),
        final(limiter)@.burst == old(limiter)@.burst,
        final(limiter)@.per_sec == old(limiter)@.per_sec,
        final(limiter)@.last_sweep == if too_early_to_sweep(old(limiter)@, now) {
            old(limiter)@.last_sweep
        } else {
            now
        },
{
    let before = old(limiter)@;
    let key = addr.key();
    lemma_debtors(before, now);
    ratelimit::lemma_burst_bounds(before);
    ratelimit_laws::law_sweep_keeps_every_level(before, key, now, now);
    ratelimit_laws::law_level_grows_up_to_the_burst(before, key, now, now);
    let held = before.swept(now).level(key, now);
    binary64::lemma_one();
    binary64::lemma_order(binary64::ONE, held);
    if granted {
        binary64::lemma_minus_one_exact(held);
    }
}

/// A request is decided, and leaves, what the named outcome of a request says.
pub proof fn law_requests_follow_their_outcome(
    limiter: &mut AuthRateLimiter,
    addr: IpAddr,
    now: u128,
    granted: bool,
)
    requires
        old(limiter)@.wf(),
        call_ensures(AuthRateLimiter::check, (limiter, addr, now), granted),
    ensures
        granted == old(limiter)@.granted(addr.key(), now),
        final(limiter)@ == old(limiter)@.checked(addr.key(), now),
{
}

/// The table is never dropped while no more than 262144 different sources have asked:
/// `sources` is any set of that size at most that holds those tracked at first and those of
/// the requests.
pub proof fn law_few_sources_never_reset(
    limiter: LimiterView,
    requests: Seq<Request>,
    sources: Set<SourceKey>,
)
    requires
        limiter.wf(),
        sources.finite(),
        sources.len() <= 262_144,
        limiter.buckets.dom().subset_of(sources),
        forall|i: int| 0 <= i < requests.len() ==> sources.contains((#[trigger] requests[i]).key),
    ensures
        never_resets(limiter, requests),
        after(limiter, requests).wf(),
        after(limiter, requests).buckets.dom().subset_of(sources),
    decreases requests.len(),
{
    if requests.len() > 0 {
        let earlier = requests.drop_last();
        let last = requests.last();
        assert forall|i: int| 0 <= i < earlier.len() implies sources.contains(
            (#[trigger] earlier[i]).key,
        ) by {
            assert(earlier[i] == requests[i]);
        }
        law_few_sources_never_reset(limiter, earlier, sources);
        let state = after(limiter, earlier);
        assert(sources.contains(requests[requests.len() - 1].key));
        vstd::set_lib::lemma_len_subset(state.buckets.dom(), sources);
        law_reset_is_a_backstop(state, last.time);
        ratelimit_laws::law_request_keeps_the_settings(state, last.key, last.time);
        ratelimit_laws::law_table_grows_by_one(state, last.key, last.time);
    }
}

/// A new limiter tracks nobody. Its burst is the given number of tokens and its rate the
/// given one, except that a burst of zero is one token, and that a rate which is not a
/// positive finite number is two tokens per second.
pub proof fn law_a_new_limiter_is_usable(
    burst: u32,
    per_sec: u64,
    now: u128,
    limiter: AuthRateLimiter,
)
    requires
        call_ensures(AuthRateLimiter::new, (burst, per_sec, now), limiter),
    ensures
        limiter@.wf(),
        limiter@.buckets.dom() == Set::<SourceKey>::empty(),
        limiter@.last_sweep == now,
        burst > 0 ==> binary64::units(limiter@.burst) == burst * pow2(1074),
        burst == 0 ==> binary64::units(limiter@.burst) == pow2(1074),
        0 < per_sec < 0x7ff0_0000_0000_0000 ==> limiter@.per_sec == per_sec,
        !(0 < per_sec < 0x7ff0_0000_0000_0000) ==> binary64::units(limiter@.per_sec) == 2 * pow2(
            1074,
        ),
{
    vstd::arithmetic::mul::lemma_mul_basics(pow2(1074) as int);
}

/// A new limiter grants any source as many requests at one time as its burst says, at least
/// one, and no more.
pub proof fn law_a_new_limiter_grants_the_burst(
    burst: u32,
    per_sec: u64,
    made: u128,
    limiter: AuthRateLimiter,
    key: SourceKey,
    now: u128,
    count: nat,
)
    requires
        call_ensures(AuthRateLimiter::new, (burst, per_sec, made), limiter),
    ensures
        repeated(limiter@, key, now, count).granted(key, now) <==> count < burst || count == 0,
{
    let n: u32 = if burst == 0 {
        1
    } else {
        burst
    };
    ratelimit_laws::law_burst_then_throttle(limiter@, key, now, n, count);
}

/// A limiter can be made of any settings, and asked at any time by any source, through the
/// layer or directly; and any bucket of it can be refilled.
pub proof fn law_a_limiter_can_always_be_asked(
    burst: u32,
    per_sec: u64,
    limiter: &mut AuthRateLimiter,
    client: Option<IpAddr>,
    addr: IpAddr,
    bucket: &Bucket,
    now: u128,
)
    requires
        old(limiter)@.wf(),
    ensures
        bucket.tokens <= old(limiter)@.burst ==> call_requires(
            ratelimit::refilled_tokens,
            (bucket, now, old(limiter)@.burst, old(limiter)@.per_sec),
        ),
        call_requires(AuthRateLimiter::new, (burst, per_sec, now)),
        call_requires(AuthRateLimiter::sweep, (limiter, now)),
        call_requires(AuthRateLimiter::check, (limiter, addr, now)),
        call_requires(ratelimit::auth_rate_limit_layer, (Some(limiter), client, now)),
        call_requires(
            ratelimit::auth_rate_limit_layer,
            (None::<&mut AuthRateLimiter>, client, now),
        ),
{
    ratelimit::lemma_burst_bounds(old(limiter)@);
}

/// Without a limiter every request goes on.
pub proof fn law_no_limiter_forwards(client: Option<IpAddr>, now: u128, action: LayerAction)
    requires
        call_ensures(
            ratelimit::auth_rate_limit_layer,
            (None::<&mut AuthRateLimiter>, client, now),
            action,
        ),
    ensures
        action is Forward,
{
}

/// A request of no known source is answered with the status 500 and costs nobody a token.
pub proof fn law_unattributed_requests_are_refused(
    limiter: &mut AuthRateLimiter,
    now: u128,
    action: LayerAction,
)
    requires
        old(limiter)@.wf(),
        call_ensures(
            ratelimit::auth_rate_limit_layer,
            (Some(limiter), None::<IpAddr>, now),
            action,
        ),
    ensures
        action matches LayerAction::Reply { status, body } && status == 500 && body@
            == "unable to attribute request"@,
        final(limiter)@ == old(limiter)@,
{
}

/// The layer does what the limiter decides: of two limiters in the same state, one asked
/// through it and one directly, the first forwards what the second grants and answers with
/// the status 429 what it denies, and they are in the same state again.
pub proof fn law_layer_does_what_the_limiter_decides(
    limiter: &mut AuthRateLimiter,
    twin: &mut AuthRateLimiter,
    addr: IpAddr,
    now: u128,
    action: LayerAction,
    granted: bool,
)
    requires
        old(limiter)@.wf(),
        old(twin)@ == old(limiter)@,
        call_ensures(
            ratelimit::auth_rate_limit_layer,
            (Some(limiter), Some(addr), now),
            action,
        ),
        call_ensures(AuthRateLimiter::check, (twin, addr, now), granted),
    ensures
        granted ==> action is Forward,
        !granted ==> {
            &&& action matches LayerAction::Reply { status, body }
            &&& status == 429
            &&& body@ == "rate limit exceeded, slow down"@
        },
        final(limiter)@ == final(twin)@,
{
}

/// What a limiter says of itself: the sources it tracks, its burst and its rate.
pub proof fn law_a_limiter_tells_its_settings(
    limiter: &AuthRateLimiter,
    count: usize,
    burst: u64,
    per_sec: u64,
)
    requires
        call_ensures(AuthRateLimiter::source_count, (limiter,), count),
        call_ensures(AuthRateLimiter::burst, (limiter,), burst),
        call_ensures(AuthRateLimiter::per_sec, (limiter,), per_sec),
    ensures
        count == limiter@.buckets.dom().len(),
        burst == limiter@.burst,
        per_sec == limiter@.per_sec,
{
}

} // verus!
