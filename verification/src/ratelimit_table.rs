//! How many sources a limiter tracks over time.

use crate::binary64;
use crate::binary64::INFINITY;
use crate::ratelimit;
use crate::ratelimit::{
    Bucket, LimiterView, SourceKey, NANOS_PER_SEC, SWEEP_INTERVAL, SWEEP_THRESHOLD,
};
use crate::ratelimit_accuracy;
use crate::ratelimit_laws;
use crate::ratelimit_throughput::{after, end_time, in_order, Request};
use vstd::prelude::*;

verus! {

/// Every bucket has refilled to the burst once it was not asked of for `span` nanoseconds.
pub open spec fn refills_within(burst: u64, per_sec: u64, span: nat) -> bool {
    forall|bucket: Bucket, now: u128|
        bucket.tokens <= burst && ratelimit::duration_since(now, bucket.last_seen) >= span
            ==> #[trigger] ratelimit::refilled(bucket, now, burst, per_sec) == burst
}

/// Sources of the requests later than `since`.
pub open spec fn sources_after(requests: Seq<Request>, since: int) -> Set<SourceKey>
    decreases requests.len(),
{
    if requests.len() == 0 {
        Set::empty()
    } else if requests.last().time > since {
        sources_after(requests.drop_last(), since).insert(requests.last().key)
    } else {
        sources_after(requests.drop_last(), since)
    }
}

proof fn lemma_sources_finite(requests: Seq<Request>, since: int)
    ensures
        sources_after(requests, since).finite(),
    decreases requests.len(),
{
    if requests.len() > 0 {
        lemma_sources_finite(requests.drop_last(), since);
    }
}

/// An earlier time to count from gives more sources.
proof fn lemma_sources_monotonic(requests: Seq<Request>, since1: int, since2: int)
    requires
        since1 <= since2,
    ensures
        sources_after(requests, since2).subset_of(sources_after(requests, since1)),
    decreases requests.len(),
{
    if requests.len() > 0 {
        lemma_sources_monotonic(requests.drop_last(), since1, since2);
    }
}

/// A rate refills every bucket in the time in which it gives the burst and two to the power
/// of -49 of it more.
pub proof fn law_refill_span(burst: u64, per_sec: u64, span: nat)
    requires
        binary64::ONE <= burst < INFINITY,
        0x2_0000_0000_0000 * (binary64::units(per_sec) * span) >= 0x2_0000_0000_0001 * (
        binary64::units(burst) * NANOS_PER_SEC),
    ensures
        refills_within(burst, per_sec, span),
{
    let r = binary64::units(per_sec);
    assert forall|bucket: Bucket, now: u128|
        bucket.tokens <= burst && ratelimit::duration_since(now, bucket.last_seen)
            >= span implies #[trigger] ratelimit::refilled(bucket, now, burst, per_sec) == burst by {
        let nanos = ratelimit::duration_since(now, bucket.last_seen);
        assert(r * span <= r * nanos) by (nonlinear_arith)
            requires
                span <= nanos,
        ;
        ratelimit_accuracy::law_time_to_refill(bucket, now, burst, per_sec);
    }
}

/// What is tracked was asked of since shortly before the last sweep; and where that was
/// long ago, the table is small.
spec fn kept_small(
    state: LimiterView,
    requests: Seq<Request>,
    now: u128,
    span: nat,
) -> bool {
    &&& state.last_sweep <= now
    &&& state.buckets.dom().subset_of(sources_after(requests, state.last_sweep - span))
    &&& forall|key: SourceKey| #[trigger]
        state.buckets.contains_key(key) ==> sources_after(
            requests,
            state.buckets[key].last_seen - 1,
        ).contains(key)
    &&& state.buckets.len() <= SWEEP_THRESHOLD + 1 || now - state.last_sweep < SWEEP_INTERVAL
}

proof fn lemma_request_kept_small(
    state: LimiterView,
    requests: Seq<Request>,
    now: u128,
    request: Request,
    span: nat,
)
    requires
        state.wf(),
        refills_within(state.burst, state.per_sec, span),
        span > 0,
        kept_small(state, requests, now, span),
        now <= request.time,
    ensures
        kept_small(
            state.checked(request.key, request.time),
            requests.push(request),
            request.time,
            span,
        ),
{
    let time = request.time;
    let all = requests.push(request);
    let swept = state.swept(time);
    let next = state.checked(request.key, time);
    assert(all.drop_last() =~= requests);
    ratelimit_laws::law_sweep_keeps_every_level(state, request.key, time, time);
    assert forall|key: SourceKey| #[trigger]
        next.buckets.contains_key(key) implies sources_after(
        all,
        next.buckets[key].last_seen - 1,
    ).contains(key) && sources_after(all, next.last_sweep - span).contains(key) by {
        if key != request.key {
            let bucket = state.buckets[key];
            assert(state.buckets.contains_key(key));
            if state.sweep_due(time) {
                assert(state.level(key, time) < state.burst);
                assert(ratelimit::refilled(bucket, time, state.burst, state.per_sec)
                    != state.burst);
                assert(ratelimit::duration_since(time, bucket.last_seen) < span);
                lemma_sources_monotonic(requests, time - span, bucket.last_seen - 1);
            }
        }
    }
}

proof fn lemma_kept_small(limiter: LimiterView, requests: Seq<Request>, span: nat)
    requires
        limiter.wf(),
        limiter.buckets == Map::<SourceKey, Bucket>::empty(),
        refills_within(limiter.burst, limiter.per_sec, span),
        span > 0,
        in_order(limiter.last_sweep, requests),
    ensures
        after(limiter, requests).wf(),
        after(limiter, requests).burst == limiter.burst,
        after(limiter, requests).per_sec == limiter.per_sec,
        kept_small(
            after(limiter, requests),
            requests,
            end_time(limiter.last_sweep, requests),
            span,
        ),
    decreases requests.len(),
{
    if requests.len() > 0 {
        let earlier = requests.drop_last();
        let last = requests.last();
        lemma_kept_small(limiter, earlier, span);
        ratelimit_laws::law_request_keeps_the_settings(after(limiter, earlier), last.key, last.time);
        assert(earlier.push(last) =~= requests);
        lemma_request_kept_small(
            after(limiter, earlier),
            earlier,
            end_time(limiter.last_sweep, earlier),
            last,
            span,
        );
    }
}

/// The table does not grow with every address ever seen: it holds no more than the
/// threshold and one more, or else only sources that asked within the last sweep interval
/// and the time that a bucket takes to refill. `limiter` is as it was made, and `span` is
/// any time in which a bucket refills.
pub proof fn law_table_is_bounded(limiter: LimiterView, requests: Seq<Request>, span: nat)
    requires
        limiter.wf(),
        limiter.buckets == Map::<SourceKey, Bucket>::empty(),
        refills_within(limiter.burst, limiter.per_sec, span),
        span > 0,
        in_order(limiter.last_sweep, requests),
    ensures
        ({
            let now = end_time(limiter.last_sweep, requests);
            let table = after(limiter, requests).buckets;
            let recent = sources_after(requests, now - SWEEP_INTERVAL - span);
            ||| table.len() <= SWEEP_THRESHOLD + 1
            ||| table.dom().subset_of(recent) && table.len() <= recent.len()
        }),
{
    let now = end_time(limiter.last_sweep, requests);
    let state = after(limiter, requests);
    let recent = sources_after(requests, now - SWEEP_INTERVAL - span);
    lemma_kept_small(limiter, requests, span);
    lemma_sources_finite(requests, now - SWEEP_INTERVAL - span);
    if state.buckets.len() > SWEEP_THRESHOLD + 1 {
        lemma_sources_monotonic(
            requests,
            now - SWEEP_INTERVAL - span,
            state.last_sweep - span,
        );
        vstd::set_lib::lemma_len_subset(state.buckets.dom(), recent);
    }
}

} // verus!
