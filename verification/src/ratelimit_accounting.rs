//! What a source has after any requests, of its own and of others: what it had, what it
//! regained and what it was granted add up.

use crate::binary64;
use crate::ratelimit;
use crate::ratelimit::{AuthRateLimiter, Bucket, IpAddr, LimiterView, SourceKey};
use crate::ratelimit_accuracy;
use crate::ratelimit_laws;
use crate::ratelimit_throughput::{after, end_time, in_order, never_resets, Request};
use vstd::prelude::*;

verus! {

/// How many of the requests are of the source, granted or not.
pub open spec fn asked(requests: Seq<Request>, key: SourceKey) -> nat
    decreases requests.len(),
{
    if requests.len() == 0 {
        0
    } else {
        asked(requests.drop_last(), key) + (if requests.last().key == key {
            1nat
        } else {
            0
        })
    }
}

/// How many of the requests are of the source and granted.
pub open spec fn grants(limiter: LimiterView, requests: Seq<Request>, key: SourceKey) -> nat
    decreases requests.len(),
{
    if requests.len() == 0 {
        0
    } else {
        let earlier = requests.drop_last();
        let last = requests.last();
        grants(limiter, earlier, key) + (if last.key == key && after(limiter, earlier).granted(
            key,
            last.time,
        ) {
            1nat
        } else {
            0
        })
    }
}

/// Tokens of the source, in billionths of a unit.
pub open spec fn tokens_at(limiter: LimiterView, key: SourceKey, now: u128) -> int {
    binary64::units(limiter.level(key, now)) * 1_000_000_000int
}

/// What the source had at `start` and what the rate gives from then on, in billionths of a
/// unit, without regard to the burst.
pub open spec fn supply(limiter: LimiterView, key: SourceKey, start: u128, now: u128) -> int {
    tokens_at(limiter, key, start) + binary64::units(limiter.per_sec) * (now - start)
}

/// The burst, in billionths of a unit.
pub open spec fn cap(limiter: LimiterView) -> int {
    binary64::units(limiter.burst) * 1_000_000_000int
}

/// That many whole tokens, in billionths of a unit.
pub open spec fn whole_tokens(count: nat) -> int {
    (count * binary64::per_one()) * 1_000_000_000int
}

/// What `count` refills round by, at most, weighed by two to the power of 48: of each, two
/// to the power of -48 of the burst, and one unit.
pub open spec fn rounding(limiter: LimiterView, count: nat) -> int {
    count * ((binary64::units(limiter.burst) + 0x1_0000_0000_0000) * 1_000_000_000int)
}

/// `left` and `spent` come from `supply`, up to `slack`; and none of it is lost, up to
/// `slack`, but what is above `cap`.
spec fn adds_up(left: int, spent: int, supply: int, cap: int, slack: int) -> bool {
    &&& 0x1_0000_0000_0000 * (left + spent - supply) <= slack
    &&& 0x1_0000_0000_0000 * (supply - spent - left) <= slack || cap - spent - left <= 0
}

/// From `now` on the tokens of the source add up.
spec fn tallied(
    limiter: LimiterView,
    state: LimiterView,
    key: SourceKey,
    start: u128,
    now: u128,
    granted: nat,
    count: nat,
) -> bool {
    forall|t: u128|
        now <= t ==> adds_up(
            binary64::units(#[trigger] state.level(key, t)) * 1_000_000_000int,
            whole_tokens(granted),
            supply(limiter, key, start, t),
            cap(limiter),
            rounding(limiter, count),
        )
}

proof fn lemma_tallied_at_first(limiter: LimiterView, key: SourceKey, start: u128)
    requires
        limiter.wf(),
        limiter.buckets.contains_key(key) ==> limiter.buckets[key].last_seen <= start,
    ensures
        tallied(limiter, limiter, key, start, start, 0, 2),
{
    ratelimit::lemma_burst_bounds(limiter);
    let r = binary64::units(limiter.per_sec);
    vstd::arithmetic::mul::lemma_mul_basics(binary64::per_one() as int);
    assert forall|t: u128| start <= t implies adds_up(
        binary64::units(#[trigger] limiter.level(key, t)) * 1_000_000_000int,
        whole_tokens(0),
        supply(limiter, key, start, t),
        cap(limiter),
        rounding(limiter, 2),
    ) by {
        let span = t - start;
        assert(r * span >= 0) by (nonlinear_arith)
            requires
                r >= 0,
                span >= 0,
        ;
        if limiter.buckets.contains_key(key) {
            let bucket = limiter.buckets[key];
            let middle = Bucket { tokens: limiter.level(key, start), last_seen: start };
            ratelimit_accuracy::law_refill_is_exact_up_to_rounding(
                bucket,
                start,
                limiter.burst,
                limiter.per_sec,
            );
            ratelimit_accuracy::law_refill_is_exact_up_to_rounding(
                bucket,
                t,
                limiter.burst,
                limiter.per_sec,
            );
            ratelimit_accuracy::lemma_exact_refill_composes(
                bucket,
                middle,
                t,
                limiter.burst,
                limiter.per_sec,
                1,
            );
            ratelimit_accuracy::law_refill_reaches_the_burst(
                bucket,
                t,
                limiter.burst,
                limiter.per_sec,
            );
            let first = start - bucket.last_seen;
            assert(r * (first + span) == r * first + r * span) by (nonlinear_arith);
            assert(r * first >= 0) by (nonlinear_arith)
                requires
                    r >= 0,
                    first >= 0,
            ;
            binary64::lemma_order(bucket.tokens, limiter.burst);
        }
    }
}

proof fn lemma_tallied_request(
    limiter: LimiterView,
    state: LimiterView,
    key: SourceKey,
    start: u128,
    now: u128,
    request: Request,
    granted: nat,
    count: nat,
)
    requires
        state.wf(),
        state.burst == limiter.burst,
        state.per_sec == limiter.per_sec,
        start <= now <= request.time,
        !state.resets(request.time),
        tallied(limiter, state, key, start, now, granted, count),
    ensures
        tallied(
            limiter,
            state.checked(request.key, request.time),
            key,
            start,
            request.time,
            granted + (if request.key == key && state.granted(key, request.time) {
                1nat
            } else {
                0
            }),
            count + (if request.key == key {
                1nat
            } else {
                0
            }),
        ),
{
    let time = request.time;
    let next = state.checked(request.key, time);
    if request.key == key {
        let u = binary64::per_one();
        let r = binary64::units(limiter.per_sec);
        let one = (binary64::units(limiter.burst) + 0x1_0000_0000_0000) * 1_000_000_000;
        let bucket = next.buckets[key];
        ratelimit::lemma_burst_bounds(state);
        ratelimit_laws::law_request_keeps_the_settings(state, key, time);
        ratelimit_laws::law_a_grant_takes_one_token(state, key, time);
        ratelimit_laws::law_no_time_no_refill(bucket, time, next.burst, next.per_sec);
        assert(next.buckets.contains_key(key));
        assert((granted + 1) * u == granted * u + u) by (nonlinear_arith);
        assert((count + 1) * one == count * one + one) by (nonlinear_arith);
        assert forall|t: u128| time <= t implies adds_up(
            binary64::units(#[trigger] next.level(key, t)) * 1_000_000_000int,
            whole_tokens(
                granted + (if state.granted(key, time) {
                    1nat
                } else {
                    0
                }),
            ),
            supply(limiter, key, start, t),
            cap(limiter),
            rounding(limiter, count + 1),
        ) by {
            ratelimit_accuracy::law_refill_is_exact_up_to_rounding(
                bucket,
                t,
                next.burst,
                next.per_sec,
            );
            ratelimit_accuracy::law_refill_reaches_the_burst(
                bucket,
                t,
                next.burst,
                next.per_sec,
            );
            ratelimit_laws::law_level_grows_up_to_the_burst(next, key, time, t);
            binary64::lemma_order(next.level(key, time), next.level(key, t));
            binary64::lemma_order(bucket.tokens, next.burst);
            let first = time - start;
            let second = t - time;
            assert(r * (first + second) == r * first + r * second) by (nonlinear_arith);
            assert(r * second >= 0) by (nonlinear_arith)
                requires
                    r >= 0,
                    second >= 0,
            ;
            assert(state.level(key, time) == state.level(key, time));
        }
    } else {
        assert forall|t: u128| time <= t implies adds_up(
            binary64::units(#[trigger] next.level(key, t)) * 1_000_000_000int,
            whole_tokens(granted),
            supply(limiter, key, start, t),
            cap(limiter),
            rounding(limiter, count),
        ) by {
            ratelimit_laws::law_sources_are_independent(state, request.key, key, time, t);
            assert(state.level(key, t) == state.level(key, t));
        }
    }
}

proof fn lemma_tallied(
    limiter: LimiterView,
    requests: Seq<Request>,
    key: SourceKey,
    start: u128,
)
    requires
        limiter.wf(),
        limiter.buckets.contains_key(key) ==> limiter.buckets[key].last_seen <= start,
        in_order(start, requests),
        never_resets(limiter, requests),
    ensures
        after(limiter, requests).wf(),
        after(limiter, requests).burst == limiter.burst,
        after(limiter, requests).per_sec == limiter.per_sec,
        start <= end_time(start, requests),
        tallied(
            limiter,
            after(limiter, requests),
            key,
            start,
            end_time(start, requests),
            grants(limiter, requests, key),
            asked(requests, key) + 2,
        ),
    decreases requests.len(),
{
    if requests.len() == 0 {
        lemma_tallied_at_first(limiter, key, start);
    } else {
        let earlier = requests.drop_last();
        let last = requests.last();
        lemma_tallied(limiter, earlier, key, start);
        ratelimit_laws::law_request_keeps_the_settings(after(limiter, earlier), last.key, last.time);
        lemma_tallied_request(
            limiter,
            after(limiter, earlier),
            key,
            start,
            end_time(start, earlier),
            last,
            grants(limiter, earlier, key),
            asked(earlier, key) + 2,
        );
    }
}

/// Tokens add up over any requests, of whichever sources, granted or denied, swept or not:
/// what a source has then and what it was granted is not more than what it had at first and
/// what the rate gave since, up to rounding; and it is not less, up to rounding, or it is the
/// burst at least. The rounding is that of two refills and one for each request of the
/// source.
pub proof fn law_tokens_add_up(
    limiter: LimiterView,
    requests: Seq<Request>,
    key: SourceKey,
    start: u128,
    now: u128,
)
    requires
        limiter.wf(),
        limiter.buckets.contains_key(key) ==> limiter.buckets[key].last_seen <= start,
        in_order(start, requests),
        never_resets(limiter, requests),
        end_time(start, requests) <= now,
    ensures
        ({
            let left = tokens_at(after(limiter, requests), key, now);
            let spent = whole_tokens(grants(limiter, requests, key));
            let supply = supply(limiter, key, start, now);
            let slack = rounding(limiter, asked(requests, key) + 2);
            &&& left <= cap(limiter)
            &&& 0x1_0000_0000_0000 * (left + spent - supply) <= slack
            &&& {
                ||| 0x1_0000_0000_0000 * (supply - spent - left) <= slack
                ||| left + spent >= cap(limiter)
            }
        }),
{
    lemma_tallied(limiter, requests, key, start);
    let state = after(limiter, requests);
    ratelimit_laws::law_level_grows_up_to_the_burst(state, key, now, now);
    ratelimit::lemma_burst_bounds(state);
    binary64::lemma_order(state.level(key, now), state.burst);
    assert(adds_up(
        binary64::units(state.level(key, now)) * 1_000_000_000int,
        whole_tokens(grants(limiter, requests, key)),
        supply(limiter, key, start, now),
        cap(limiter),
        rounding(limiter, asked(requests, key) + 2),
    ));
}

/// Partial refills accumulate over the requests of a source, denied ones included: once what
/// it had and has regained exceeds what it was granted by a whole token and the rounding,
/// and the burst has room for that, the next request is granted. So a source that keeps asking is served as
/// soon as its partial refills make up a token.
pub proof fn law_a_regained_token_is_granted(
    limiter: LimiterView,
    requests: Seq<Request>,
    start: u128,
    asks: &mut AuthRateLimiter,
    addr: IpAddr,
    now: u128,
    granted: bool,
)
    requires
        limiter.wf(),
        limiter.buckets.contains_key(addr.key()) ==> limiter.buckets[addr.key()].last_seen <= start,
        in_order(start, requests),
        never_resets(limiter, requests),
        end_time(start, requests) <= now,
        old(asks)@ == after(limiter, requests),
        call_ensures(AuthRateLimiter::check, (asks, addr, now), granted),
        ({
            let owed = whole_tokens(grants(limiter, requests, addr.key()) + 1);
            let slack = rounding(limiter, asked(requests, addr.key()) + 2);
            &&& 0x1_0000_0000_0000 * (supply(limiter, addr.key(), start, now) - owed) >= slack
            &&& cap(limiter) >= owed
        }),
    ensures
        granted,
{
    let key = addr.key();
    let state = after(limiter, requests);
    let g = grants(limiter, requests, key);
    let u = binary64::per_one();
    lemma_tallied(limiter, requests, key, start);
    law_tokens_add_up(limiter, requests, key, start, now);
    ratelimit_laws::law_a_whole_token_decides(state, key, now);
    assert((g + 1) * u == g * u + u) by (nonlinear_arith);
}

/// Before a whole token is there, counting all that the source had and regained and all
/// that it was granted, and the rounding, a request is denied, unless the backstop drops
/// the table at it.
pub proof fn law_a_missing_token_is_not_granted(
    limiter: LimiterView,
    requests: Seq<Request>,
    start: u128,
    asks: &mut AuthRateLimiter,
    addr: IpAddr,
    now: u128,
    granted: bool,
)
    requires
        limiter.wf(),
        limiter.buckets.contains_key(addr.key()) ==> limiter.buckets[addr.key()].last_seen <= start,
        in_order(start, requests),
        never_resets(limiter, requests),
        end_time(start, requests) <= now,
        old(asks)@ == after(limiter, requests),
        !old(asks)@.resets(now),
        call_ensures(AuthRateLimiter::check, (asks, addr, now), granted),
        0x1_0000_0000_0000 * (whole_tokens(grants(limiter, requests, addr.key()) + 1) - supply(
            limiter,
            addr.key(),
            start,
            now,
        )) > rounding(limiter, asked(requests, addr.key()) + 2),
    ensures
        !granted,
{
    let key = addr.key();
    let state = after(limiter, requests);
    let g = grants(limiter, requests, key);
    let u = binary64::per_one();
    lemma_tallied(limiter, requests, key, start);
    law_tokens_add_up(limiter, requests, key, start, now);
    ratelimit_laws::law_a_whole_token_decides(state, key, now);
    assert((g + 1) * u == g * u + u) by (nonlinear_arith);
}

} // verus!
