//! Per-source-address rate limiting for the unauthenticated authentication endpoints.
//!
//! This is a coarse token bucket rather than a precise quota: bulk automated probing
//! becomes expensive, while real logins are unaffected.

use crate::arithmetic::{billionths, minus_one, product_of, sum_of, whole};
use crate::binary64;
use crate::binary64::{INFINITY, ONE, TWO, TWO_TO_32};
use std::collections::BTreeMap;
use vstd::arithmetic::power2::*;
use vstd::prelude::*;

verus! {

broadcast use {vstd::std_specs::btree::group_btree_axioms, vstd::laws_cmp::group_laws_cmp};

/// Below this many tracked sources, sweeping is not worth the scan.
pub const SWEEP_THRESHOLD: usize = 8192;

/// Nanoseconds that lie between two sweeps at least.
pub const SWEEP_INTERVAL: u128 = 60_000_000_000;

/// Sources that may stay tracked after a sweep. Where more remain, all are dropped.
pub const HARD_MAX: usize = 262_144;

/// Refill rate, in tokens per second, in place of one that a bucket could never
/// refill from.
pub const PER_SEC_FALLBACK: u64 = TWO;

/// Nanoseconds of a second.
pub const NANOS_PER_SEC: u128 = 1_000_000_000;

/// Address of a client.
#[derive(Clone, Copy, Debug, PartialEq, Eq, Structural)]
pub enum IpAddr {
    V4(u32),
    V6(u128),
}

/// Key of an address in the table: the protocol version and the address bits.
pub type SourceKey = (u8, u128);

impl IpAddr {
    pub open spec fn key(self) -> SourceKey {
        match self {
            IpAddr::V4(bits) => (4u8, bits as u128),
            IpAddr::V6(bits) => (6u8, bits),
        }
    }

    fn table_key(self) -> (key: SourceKey)
        ensures
            key == self.key(),
    {
        match self {
            IpAddr::V4(bits) => (4u8, bits as u128),
            IpAddr::V6(bits) => (6u8, bits),
        }
    }
}

/// What is remembered of one source.
#[derive(Clone, Copy, Debug, PartialEq, Eq, Structural)]
pub struct Bucket {
    /// Tokens remaining, as a binary64 representation so that partial refills
    /// accumulate.
    pub tokens: u64,
    /// Time of the last request, in nanoseconds.
    pub last_seen: u128,
}

struct LimiterState {
    buckets: BTreeMap<SourceKey, Bucket>,
    last_sweep: u128,
}

/// A token bucket for every source address. Times are nanoseconds on a clock of
/// the caller's; token counts and rates are binary64 representations.
pub struct AuthRateLimiter {
    inner: LimiterState,
    burst: u64,
    per_sec: u64,
}

/// Nanoseconds from one time to another, zero where the second is not later.
pub open spec fn duration_since(now: u128, earlier: u128) -> nat {
    if now >= earlier {
        (now - earlier) as nat
    } else {
        0
    }
}

/// A duration in seconds: its whole seconds and its fraction of a second, added.
pub open spec fn as_secs(nanos: nat) -> u64 {
    binary64::sum(
        binary64::ratio(nanos / (NANOS_PER_SEC as nat), 1),
        binary64::ratio(nanos % (NANOS_PER_SEC as nat), NANOS_PER_SEC as nat),
    )
}

/// Tokens that `bucket` holds at `now`, capped at `burst`.
pub open spec fn refilled(bucket: Bucket, now: u128, burst: u64, per_sec: u64) -> u64 {
    binary64::smaller(
        binary64::sum(
            bucket.tokens,
            binary64::product(as_secs(duration_since(now, bucket.last_seen)), per_sec),
        ),
        burst,
    )
}

/// State of a limiter.
pub struct LimiterView {
    pub buckets: Map<SourceKey, Bucket>,
    pub last_sweep: u128,
    pub burst: u64,
    pub per_sec: u64,
}

impl LimiterView {
    /// The burst is a whole number of tokens, at least one; the rate is positive
    /// and finite; no bucket holds more than the burst.
    pub open spec fn wf(self) -> bool {
        &&& exists|n: u32| n >= 1 && self.burst == #[trigger] binary64::ratio(n as nat, 1)
        &&& 0 < self.per_sec < INFINITY
        &&& self.buckets.dom().finite()
        &&& forall|key: SourceKey| #[trigger]
            self.buckets.contains_key(key) ==> self.buckets[key].tokens <= self.burst
    }

    /// Tokens that the source has at `now`. One that is not tracked has the burst.
    pub open spec fn level(self, key: SourceKey, now: u128) -> u64 {
        if self.buckets.contains_key(key) {
            refilled(self.buckets[key], now, self.burst, self.per_sec)
        } else {
            self.burst
        }
    }

    /// The table is large and the last sweep long enough ago.
    pub open spec fn sweep_due(self, now: u128) -> bool {
        &&& self.buckets.len() > SWEEP_THRESHOLD
        &&& duration_since(now, self.last_sweep) >= SWEEP_INTERVAL
    }

    /// The buckets that have not refilled to the burst.
    pub open spec fn in_debt(self, now: u128) -> Map<SourceKey, Bucket> {
        self.buckets.restrict(
            Set::new(
                |key: SourceKey|
                    self.buckets.contains_key(key) && self.level(key, now) < self.burst,
            ),
        )
    }

    /// The sweep before a request at `now` drops the whole table.
    pub open spec fn resets(self, now: u128) -> bool {
        self.sweep_due(now) && self.in_debt(now).len() > HARD_MAX
    }

    /// The state after the sweep that precedes a request.
    pub open spec fn swept(self, now: u128) -> LimiterView {
        if !self.sweep_due(now) {
            self
        } else {
            LimiterView {
                buckets: if self.resets(now) {
                    Map::empty()
                } else {
                    self.in_debt(now)
                },
                last_sweep: now,
                ..self
            }
        }
    }

    /// Whether a request of the source is within its budget.
    pub open spec fn granted(self, key: SourceKey, now: u128) -> bool {
        self.swept(now).level(key, now) >= ONE
    }

    /// The state after a request of the source.
    pub open spec fn checked(self, key: SourceKey, now: u128) -> LimiterView {
        let swept = self.swept(now);
        let level = swept.level(key, now);
        let tokens = if level >= ONE {
            binary64::difference(level, ONE)
        } else {
            level
        };
        let bucket = Bucket { tokens, last_seen: now };
        LimiterView { buckets: swept.buckets.insert(key, bucket), ..swept }
    }
}

/// Facts about the burst that every limiter has.
pub proof fn lemma_burst_bounds(limiter: LimiterView)
    requires
        limiter.wf(),
    ensures
        ONE <= limiter.burst <= TWO_TO_32,
{
    let n = choose|n: u32| n >= 1 && limiter.burst == #[trigger] binary64::ratio(n as nat, 1);
    binary64::lemma_whole_range(n);
}

/// Tokens that `bucket` would hold at `now`, capped at `burst`.
pub fn refilled_tokens(bucket: &Bucket, now: u128, burst: u64, per_sec: u64) -> (tokens: u64)
    requires
        bucket.tokens <= INFINITY,
        burst <= INFINITY,
        per_sec < INFINITY,
    ensures
        tokens == refilled(*bucket, now, burst, per_sec),
        tokens <= burst,
{
    let elapsed: u128 = if now >= bucket.last_seen {
        now - bucket.last_seen
    } else {
        0
    };
    proof {
        let n = elapsed as nat / (NANOS_PER_SEC as nat);
        lemma2_to64();
        lemma2_to64_rest();
        lemma_pow2_adds(60, 39);
        assert(n < pow2(99));
        binary64::lemma_seconds_finite(n, elapsed as nat % (NANOS_PER_SEC as nat));
    }
    let seconds: u64 = sum_of(
        whole(elapsed / NANOS_PER_SEC),
        billionths((elapsed % NANOS_PER_SEC) as u32),
    );
    let earned: u64 = product_of(seconds, per_sec);
    proof {
        binary64::lemma_product_bound(seconds, per_sec);
        binary64::lemma_sum_bound(bucket.tokens, earned);
        binary64::lemma_order(binary64::sum(bucket.tokens, earned), burst);
    }
    let filled: u64 = sum_of(bucket.tokens, earned);
    if filled <= burst {
        filled
    } else {
        burst
    }
}

impl View for AuthRateLimiter {
    type V = LimiterView;

    closed spec fn view(&self) -> LimiterView {
        LimiterView {
            buckets: self.inner.buckets@,
            last_sweep: self.inner.last_sweep,
            burst: self.burst,
            per_sec: self.per_sec,
        }
    }
}

impl AuthRateLimiter {
    /// A limiter that tracks no source yet. A burst of zero, or a rate that never
    /// refills a bucket, would deny every authentication attempt: a burst of one
    /// and the fallback rate take their place.
    ///
    /// `per_sec` is any binary64 representation, `now` the time of creation.
    pub fn new(burst: u32, per_sec: u64, now: u128) -> (limiter: Self)
        ensures
            limiter@.wf(),
            limiter@.buckets == Map::<SourceKey, Bucket>::empty(),
            limiter@.last_sweep == now,
            limiter@.burst == binary64::ratio(
                if burst == 0 {
                    1
                } else {
                    burst as nat
                },
                1,
            ),
            binary64::units(limiter@.burst) == (if burst == 0 {
                1
            } else {
                burst as nat
            }) * binary64::per_one(),
            limiter@.per_sec == if 0 < per_sec < INFINITY {
                per_sec
            } else {
                PER_SEC_FALLBACK
            },
            binary64::units(PER_SEC_FALLBACK) == 2 * binary64::per_one(),
    {
        let burst: u32 = if burst == 0 {
            1
        } else {
            burst
        };
        let per_sec: u64 = if 0 < per_sec && per_sec < INFINITY {
            per_sec
        } else {
            PER_SEC_FALLBACK
        };
        proof {
            binary64::lemma_whole_exact(burst as nat);
            binary64::lemma_two();
        }
        AuthRateLimiter {
            inner: LimiterState { buckets: BTreeMap::new(), last_sweep: now },
            burst: whole(burst as u128),
            per_sec,
        }
    }

    /// Number of sources that are tracked.
    pub fn source_count(&self) -> (count: usize)
        ensures
            count == self@.buckets.len(),
    {
        self.inner.buckets.len()
    }

    /// The largest number of tokens that a source can hold.
    pub fn burst(&self) -> (burst: u64)
        ensures
            burst == self@.burst,
    {
        self.burst
    }

    /// Tokens per second that a source regains.
    pub fn per_sec(&self) -> (per_sec: u64)
        ensures
            per_sec == self@.per_sec,
    {
        self.per_sec
    }

    /// Forgets the sources that have refilled to the burst, where a sweep is due. Where too
    /// many remain the whole table is dropped, and the result is how many there were.
    pub fn sweep(&mut self, now: u128) -> (dropped: Option<usize>)
        requires
            old(self)@.wf(),
        ensures
            final(self)@.wf(),
            final(self)@ == old(self)@.swept(now),
            dropped is Some <==> old(self)@.resets(now),
            dropped matches Some(count) ==> count == old(self)@.in_debt(now).len(),
    {
        proof {
            lemma_burst_bounds(self@);
        }
        let since: u128 = if now >= self.inner.last_sweep {
            now - self.inner.last_sweep
        } else {
            0
        };
        if self.inner.buckets.len() > SWEEP_THRESHOLD && since >= SWEEP_INTERVAL {
            let mut kept: BTreeMap<SourceKey, Bucket> = BTreeMap::new();
            let ghost before = self@;
            for entry in it: self.inner.buckets.iter()
                invariant
                    self@ == before,
                    before.wf(),
                    before.burst <= INFINITY,
                    before.buckets == self.inner.buckets@,
                    it.seq() == vstd::std_specs::iter::IteratorSpec::remaining(
                        &vstd::std_specs::btree::spec_btree_map_iter(&self.inner.buckets),
                    ),
                    forall|key: SourceKey| #[trigger]
                        kept@.contains_key(key) ==> before.in_debt(now).contains_key(key)
                            && kept@[key] == before.buckets[key],
                    forall|i: int|
                        0 <= i < it.index() && before.in_debt(now).contains_key(
                            *(#[trigger] it.seq()[i]).0,
                        ) ==> kept@.contains_key(*it.seq()[i].0),
            {
                let (key, bucket) = entry;
                assert(before.buckets.contains_key(*it.seq()[it.index()].0));
                if refilled_tokens(bucket, now, self.burst, self.per_sec) < self.burst {
                    kept.insert(*key, *bucket);
                }
            }
            assert(kept@ =~= before.in_debt(now));
            self.inner.buckets = kept;
            self.inner.last_sweep = now;
            let count: usize = self.inner.buckets.len();
            if count > HARD_MAX {
                self.inner.buckets.clear();
                return Some(count);
            }
        }
        None
    }

    /// Takes a token for `addr`, returning false when the source has exhausted its
    /// budget.
    pub fn check(&mut self, addr: IpAddr, now: u128) -> (granted: bool)
        requires
            old(self)@.wf(),
        ensures
            final(self)@.wf(),
            granted == old(self)@.granted(addr.key(), now),
            final(self)@ == old(self)@.checked(addr.key(), now),
    {
        let key: SourceKey = addr.table_key();
        let _ = self.sweep(now);
        proof {
            lemma_burst_bounds(self@);
        }
        let level: u64 = match self.inner.buckets.get(&key) {
            Some(bucket) => refilled_tokens(bucket, now, self.burst, self.per_sec),
            None => self.burst,
        };
        let granted: bool = level >= ONE;
        let tokens: u64 = if granted {
            proof {
                binary64::lemma_minus_one_exact(level);
            }
            minus_one(level)
        } else {
            level
        };
        self.inner.buckets.insert(key, Bucket { tokens, last_seen: now });
        granted
    }
}

/// What becomes of a request at the authentication endpoints.
#[derive(Clone, Copy, Debug)]
pub enum LayerAction {
    /// The request goes on to the endpoint.
    Forward,
    /// The request is answered here, with an HTTP status and a body.
    Reply { status: u16, body: &'static str },
}

/// Reply to a request that no source address is known of.
pub open spec fn is_unattributed(action: LayerAction) -> bool {
    action matches LayerAction::Reply { status, body } && status == 500 && body@
        == "unable to attribute request"@
}

/// Reply to a request of a source that has exhausted its budget.
pub open spec fn is_throttled(action: LayerAction) -> bool {
    action matches LayerAction::Reply { status, body } && status == 429 && body@
        == "rate limit exceeded, slow down"@
}

/// Rate limits the unauthenticated auth endpoints per source address.
///
/// Without a limiter every request goes on. A request that cannot be attributed to
/// a source is refused rather than handed an unmetered path.
pub fn auth_rate_limit_layer(
    limiter: Option<&mut AuthRateLimiter>,
    client: Option<IpAddr>,
    now: u128,
) -> (action: LayerAction)
    requires
        limiter matches Some(l) ==> (*l)@.wf(),
    ensures
        limiter is None ==> action is Forward,
        limiter matches Some(l) ==> {
            &&& final(l)@.wf()
            &&& match client {
                None => is_unattributed(action) && final(l)@ == (*l)@,
                Some(addr) => {
                    &&& final(l)@ == (*l)@.checked(addr.key(), now)
                    &&& if (*l)@.granted(addr.key(), now) {
                        action is Forward
                    } else {
                        is_throttled(action)
                    }
                },
            }
        },
{
    match limiter {
        None => LayerAction::Forward,
        Some(limiter) => match client {
            None => LayerAction::Reply { status: 500, body: "unable to attribute request" },
            Some(addr) => {
                if limiter.check(addr, now) {
                    LayerAction::Forward
                } else {
                    LayerAction::Reply { status: 429, body: "rate limit exceeded, slow down" }
                }
            },
        },
    }
}

} // verus!
