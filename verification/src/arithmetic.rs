//! Correctly rounded arithmetic on binary64 representations, in integers.

use crate::binary64;
use crate::binary64::{BINADE, INFINITY, ONE, TWO_TO_32};
use vstd::arithmetic::mul::*;
use vstd::arithmetic::power2::*;
use vstd::prelude::*;

verus! {

/// Two ways of writing the gap at scale `t`: with `c` the weight of the last
/// digit of a quotient that is shifted right by `d` to reach that scale.
proof fn lemma_common_weight(den: nat, c: nat, s: int, d: nat, t: nat)
    requires
        t == s + d,
        s >= 0 ==> c == den * pow2(s as nat),
        s < 0 ==> c * pow2((-s) as nat) == den,
    ensures
        pow2(t) * den == pow2(d) * c,
{
    if s >= 0 {
        lemma_pow2_adds(s as nat, d);
        let a = pow2(s as nat);
        let b = pow2(d);
        assert((a * b) * den == b * (den * a)) by (nonlinear_arith);
    } else {
        lemma_pow2_adds(t, (-s) as nat);
        let a = pow2(t);
        let b = pow2((-s) as nat);
        assert(a * (c * b) == (a * b) * c) by (nonlinear_arith);
    }
}

/// Cutting off `d` digits of `q`, with the remainder deciding the direction,
/// rounds to the nearest.
proof fn lemma_round_cut(
    num: nat,
    den: nat,
    c: nat,
    q: nat,
    d: nat,
    t: u64,
    hi: u64,
    rem: nat,
    up: bool,
)
    requires
        den > 0,
        c > 0,
        d > 0,
        q * c <= num < (q + 1) * c,
        pow2(t as nat) * den == pow2(d) * c,
        t <= 2045,
        hi < 2 * BINADE,
        t == 0 || hi >= BINADE,
        q == hi * pow2(d) + rem,
        rem < pow2(d),
        up <==> {
            ||| rem > pow2((d - 1) as nat)
            ||| rem == pow2((d - 1) as nat) && (num != q * c || hi % 2 == 1)
        },
    ensures
        binary64::round(num, den) == t * BINADE + hi + (if up {
            1int
        } else {
            0int
        }),
{
    binary64::lemma_compose(t, hi);
    let low = (t * BINADE + hi) as u64;
    let bits = if up {
        (low + 1) as u64
    } else {
        low
    };
    lemma_pow2_unfold(d);
    let half = pow2((d - 1) as nat);
    let p = pow2(d);
    let k = pow2(t as nat);
    let h = hi as nat;
    assert((h * k) * den == (h * p) * c) by (nonlinear_arith)
        requires
            k * den == p * c,
    ;
    assert(((h + 1) * k) * den == (h * p) * c + 2 * (half * c)) by (nonlinear_arith)
        requires
            k * den == p * c,
            p == 2 * half,
    ;
    let middle = h * p + half;
    assert(middle * c == (h * p) * c + half * c) by (nonlinear_arith)
        requires
            middle == h * p + half,
    ;
    assert((h * p) * c <= q * c) by (nonlinear_arith)
        requires
            h * p <= q,
    ;
    assert((q + 1) * c <= (h * p) * c + 2 * (half * c)) by (nonlinear_arith)
        requires
            q + 1 <= h * p + 2 * half,
    ;
    if rem > half {
        assert(q * c >= middle * c + c) by (nonlinear_arith)
            requires
                q >= middle + 1,
        ;
    } else if rem == half {
        assert(q == middle);
    } else {
        assert((q + 1) * c <= middle * c) by (nonlinear_arith)
            requires
                q + 1 <= middle,
        ;
    }
    binary64::lemma_nearest_between(num, den, low, bits);
    binary64::lemma_round_is(num, den, bits);
}

/// Number of binary digits of `q`.
fn bit_length(q: u128) -> (len: u32)
    requires
        0 < q < 0x100_0000_0000_0000_0000_0000_0000_0000,
    ensures
        1 <= len <= 120,
        pow2((len - 1) as nat) <= q < pow2(len as nat),
{
    let mut len: u32 = 0;
    let mut power: u128 = 1;
    proof {
        lemma2_to64();
        binary64::lemma_powers();
    }
    while power <= q
        invariant
            q < 0x100_0000_0000_0000_0000_0000_0000_0000 == pow2(120),
            len <= 120,
            power == pow2(len as nat),
            len > 0 ==> pow2((len - 1) as nat) <= q,
        decreases 120 - len,
    {
        proof {
            if len >= 120 {
                if len > 120 {
                    lemma_pow2_strictly_increases(120, len as nat);
                }
                assert(false);
            }
            lemma_pow2_unfold((len + 1) as nat);
        }
        power = power * 2;
        len = len + 1;
    }
    len
}

/// Two to the power of `e`.
fn power_of_two(e: u32) -> (power: u128)
    requires
        e <= 120,
    ensures
        power == pow2(e as nat),
{
    let mut power: u128 = 1;
    let mut i: u32 = 0;
    proof {
        lemma2_to64();
        binary64::lemma_powers();
    }
    while i < e
        invariant
            i <= e <= 120,
            power == pow2(i as nat),
            pow2(120) == 0x100_0000_0000_0000_0000_0000_0000_0000,
        decreases e - i,
    {
        proof {
            lemma_pow2_strictly_increases(i as nat, 120);
            lemma_pow2_unfold((i + 1) as nat);
        }
        power = power * 2;
        i = i + 1;
    }
    power
}

/// Size of what is left of `len` digits after cutting off `d` of them.
proof fn lemma_cut_bounds(q: nat, len: nat, d: nat, t: nat, high: nat, rem: nat)
    requires
        len > 0,
        pow2((len - 1) as nat) <= q < pow2(len),
        q == high * pow2(d) + rem,
        rem < pow2(d),
        len <= d + 53,
        t > 0 ==> len == d + 53,
    ensures
        high < 2 * BINADE,
        t > 0 ==> high >= BINADE,
{
    binary64::lemma_powers();
    lemma_pow2_pos(d);
    let p = pow2(d);
    lemma_pow2_adds(53, d);
    if len < d + 53 {
        lemma_pow2_strictly_increases(len, d + 53);
    }
    if high >= 2 * BINADE {
        assert(high * p >= 2 * BINADE * p) by (nonlinear_arith)
            requires
                high >= 2 * BINADE,
        ;
    }
    if t > 0 && high < BINADE {
        lemma_pow2_adds(52, d);
        assert(high * p + p <= BINADE * p) by (nonlinear_arith)
            requires
                high + 1 <= BINADE,
        ;
    }
}

/// Rounds a value with the digits `q`, the last of them weighing two to the power
/// of `s` units. `inexact` says that the value lies strictly above these digits.
fn round_digits(
    q: u128,
    s: i32,
    inexact: bool,
    Ghost(num): Ghost<nat>,
    Ghost(den): Ghost<nat>,
    Ghost(c): Ghost<nat>,
) -> (bits: u64)
    requires
        0 < q < 0x100_0000_0000_0000_0000_0000_0000_0000,
        -1074 <= s <= 4096,
        den > 0,
        c > 0,
        s >= 0 ==> c == den * pow2(s as nat),
        s < 0 ==> c * pow2((-s) as nat) == den,
        q * c <= num < (q + 1) * c,
        inexact <==> num != q * c,
        inexact ==> q >= 0x1000_0000_0000_0000,
    ensures
        bits == binary64::round(num, den),
{
    let len: u32 = bit_length(q);
    proof {
        lemma2_to64();
        lemma2_to64_rest();
        binary64::lemma_powers();
    }
    let top: i32 = len as i32 - 53 + s;
    let t: i32 = if top > 0 {
        top
    } else {
        0
    };
    if t >= 2046 {
        proof {
            lemma_pow2_adds((len - 1) as nat, s as nat);
            if len - 1 + s > 2098 {
                lemma_pow2_strictly_increases(2098, (len - 1 + s) as nat);
            }
            lemma_pow2_adds(52, 2046);
            let low = pow2((len - 1) as nat);
            let w = pow2(s as nat);
            let x = pow2(2098);
            assert(q * (den * w) >= x * den) by (nonlinear_arith)
                requires
                    low * w >= x,
                    q >= low,
            ;
            assert(binary64::units(INFINITY) == pow2(2098));
            binary64::lemma_nearest_infinite(num, den);
            binary64::lemma_round_is(num, den, INFINITY);
        }
        return INFINITY;
    }
    let d: i32 = t - s;
    if d <= 0 {
        let shift: u32 = (0 - d) as u32;
        proof {
            assert(len + shift <= 53);
            lemma_pow2_adds(len as nat, shift as nat);
            lemma_pow2_adds((len - 1) as nat, shift as nat);
            if len + shift < 53 {
                lemma_pow2_strictly_increases((len + shift) as nat, 53);
            }
            let f = pow2(shift as nat);
            lemma_pow2_pos(shift as nat);
            assert(q * f < pow2(len as nat) * f) by (nonlinear_arith)
                requires
                    q < pow2(len as nat),
                    f > 0,
            ;
            assert(q * f >= pow2((len - 1) as nat) * f) by (nonlinear_arith)
                requires
                    q >= pow2((len - 1) as nat),
            ;
        }
        let m: u64 = (q * power_of_two(shift)) as u64;
        proof {
            assert(t > 0 ==> len + shift == 53);
            binary64::lemma_compose(t as u64, m);
            if len >= 54 {
                assert(false);
            }
            if len < 60 {
                lemma_pow2_strictly_increases(len as nat, 60);
            }
            let bits = (t * BINADE + m) as u64;
            lemma_pow2_adds(t as nat, shift as nat);
            let f = pow2(shift as nat);
            let w = pow2(t as nat);
            assert((q * f) * w * den == q * (den * (w * f))) by (nonlinear_arith);
            binary64::lemma_round_exact(num, den, bits);
        }
        return t as u64 * BINADE + m;
    }
    if d > 120 {
        proof {
            assert(t == 0);
            let half = pow2((d - 1) as nat);
            if d > 121 {
                lemma_pow2_strictly_increases(120, (d - 1) as nat);
            }
            lemma_pow2_strictly_increases((d - 1) as nat, d as nat);
            lemma_common_weight(den, c, s as int, d as nat, t as nat);
            lemma_mul_basics(pow2(d as nat) as int);
            lemma_round_cut(num, den, c, q as nat, d as nat, 0, 0, q as nat, false);
        }
        return 0;
    }
    let p: u128 = power_of_two(d as u32);
    let half: u128 = power_of_two(d as u32 - 1);
    proof {
        lemma_pow2_pos(d as nat);
    }
    let high: u128 = q / p;
    let rem: u128 = q % p;
    proof {
        vstd::arithmetic::div_mod::lemma_fundamental_div_mod(q as int, p as int);
        lemma_mul_is_commutative(p as int, high as int);
        lemma_cut_bounds(q as nat, len as nat, d as nat, t as nat, high as nat, rem as nat);
    }
    let m: u64 = high as u64;
    let up: bool = rem > half || (rem == half && (inexact || m % 2 == 1));
    proof {
        lemma_common_weight(den, c, s as int, d as nat, t as nat);
        binary64::lemma_compose(t as u64, m);
        lemma_round_cut(num, den, c, q as nat, d as nat, t as u64, m, rem as nat, up);
    }
    if up {
        t as u64 * BINADE + m + 1
    } else {
        t as u64 * BINADE + m
    }
}

/// Significand and scale of a representation.
fn split(bits: u64) -> (parts: (u64, u32))
    requires
        bits <= INFINITY,
    ensures
        parts.0 == binary64::significand(bits),
        parts.1 == binary64::scale(bits),
        parts.0 < 2 * BINADE,
        parts.1 <= 2046,
        bits < INFINITY ==> parts.1 <= 2045,
        parts.1 > 0 ==> parts.0 >= BINADE,
        parts.0 == 0 <==> bits == 0,
{
    if bits < BINADE {
        (bits, 0)
    } else {
        (BINADE + bits % BINADE, (bits / BINADE - 1) as u32)
    }
}

/// Adds two numbers.
pub fn sum_of(a: u64, b: u64) -> (bits: u64)
    requires
        a <= INFINITY,
        b <= INFINITY,
    ensures
        bits == binary64::sum(a, b),
{
    let large: u64 = if a < b {
        b
    } else {
        a
    };
    let small: u64 = if a < b {
        a
    } else {
        b
    };
    proof {
        lemma_mul_basics(binary64::units(INFINITY) as int);
        if large == INFINITY {
            binary64::lemma_nearest_infinite(binary64::units(a) + binary64::units(b), 1);
            binary64::lemma_round_is(binary64::units(a) + binary64::units(b), 1, INFINITY);
        }
    }
    if large == INFINITY {
        return INFINITY;
    }
    let (ml, el) = split(large);
    let (ms, es) = split(small);
    let d: u32 = el - es;
    if d >= 54 {
        proof {
            binary64::lemma_powers();
            lemma_pow2_adds(53, es as nat);
            let w = pow2(es as nat);
            lemma_pow2_pos(es as nat);
            assert(ms * w < 2 * BINADE * w) by (nonlinear_arith)
                requires
                    ms < 2 * BINADE,
                    w > 0,
            ;
            if 54 + es < el {
                lemma_pow2_strictly_increases((54 + es) as nat, el as nat);
            }
            lemma_pow2_unfold((54 + es) as nat);
            binary64::lemma_absorbed(large, binary64::units(small));
        }
        return large;
    }
    proof {
        binary64::lemma_powers();
        lemma2_to64();
        lemma2_to64_rest();
        if d < 53 {
            lemma_pow2_strictly_increases(d as nat, 53);
        }
        assert(ml * pow2(d as nat) <= 2 * BINADE * (2 * BINADE)) by (nonlinear_arith)
            requires
                ml <= 2 * BINADE,
                pow2(d as nat) <= 2 * BINADE,
        ;
    }
    let q: u128 = ml as u128 * power_of_two(d) + ms as u128;
    proof {
        let w = pow2(es as nat);
        let f = pow2(d as nat);
        lemma_pow2_adds(es as nat, d as nat);
        assert((ml * f + ms) * w == ml * (w * f) + ms * w) by (nonlinear_arith);
        lemma_pow2_pos(es as nat);
        lemma_pow2_pos(d as nat);
        assert(w * 1 == w);
        assert((q + 1) * w == q * w + w) by (nonlinear_arith);
        if q == 0 {
            assert(ml == 0) by (nonlinear_arith)
                requires
                    ml * f + ms == 0,
                    f > 0,
                    ms >= 0,
                    ml >= 0,
            ;
            lemma_mul_basics(w as int);
            lemma_mul_basics(pow2(0) as int);
            binary64::lemma_round_exact(binary64::units(a) + binary64::units(b), 1, 0);
        }
    }
    if q == 0 {
        return 0;
    }
    round_digits(
        q,
        es as i32,
        false,
        Ghost(binary64::units(a) + binary64::units(b)),
        Ghost(1),
        Ghost(pow2(es as nat)),
    )
}

/// Multiplies two finite numbers.
pub fn product_of(a: u64, b: u64) -> (bits: u64)
    requires
        a < INFINITY,
        b < INFINITY,
    ensures
        bits == binary64::product(a, b),
{
    let (ma, ea) = split(a);
    let (mb, eb) = split(b);
    proof {
        assert(ma * mb <= 2 * BINADE * (2 * BINADE)) by (nonlinear_arith)
            requires
                ma <= 2 * BINADE,
                mb <= 2 * BINADE,
        ;
        lemma_pow2_pos(1074);
    }
    let q: u128 = ma as u128 * mb as u128;
    proof {
        let wa = pow2(ea as nat);
        let wb = pow2(eb as nat);
        assert((ma * wa) * (mb * wb) == (ma * mb) * (wa * wb)) by (nonlinear_arith);
        lemma_pow2_adds(ea as nat, eb as nat);
        let c = pow2((ea + eb) as nat);
        lemma_pow2_pos((ea + eb) as nat);
        assert((q + 1) * c == q * c + c) by (nonlinear_arith);
        if q == 0 {
            lemma_mul_basics(c as int);
            lemma_mul_basics(pow2(0) as int);
            lemma_mul_basics(binary64::per_one() as int);
            binary64::lemma_round_exact(
                binary64::units(a) * binary64::units(b),
                binary64::per_one(),
                0,
            );
        }
        if ea + eb >= 1074 {
            lemma_pow2_adds(1074, (ea + eb - 1074) as nat);
        } else {
            lemma_pow2_adds((ea + eb) as nat, (1074 - (ea + eb)) as nat);
        }
    }
    if q == 0 {
        return 0;
    }
    round_digits(
        q,
        ea as i32 + eb as i32 - 1074,
        false,
        Ghost(binary64::units(a) * binary64::units(b)),
        Ghost(binary64::per_one()),
        Ghost(pow2((ea + eb) as nat)),
    )
}

/// Converts a whole number.
pub fn whole(n: u128) -> (bits: u64)
    requires
        n < 0x100_0000_0000_0000_0000_0000_0000_0000,
    ensures
        bits == binary64::ratio(n as nat, 1),
{
    proof {
        let c = binary64::per_one();
        lemma_pow2_pos(1074);
        assert((n + 1) * c == n * c + c) by (nonlinear_arith);
        if n == 0 {
            lemma_mul_basics(c as int);
            lemma_mul_basics(pow2(0) as int);
            binary64::lemma_round_exact(n as nat * c, 1, 0);
        }
    }
    if n == 0 {
        return 0;
    }
    round_digits(
        n,
        1074,
        false,
        Ghost(n as nat * binary64::per_one()),
        Ghost(1),
        Ghost(binary64::per_one()),
    )
}

/// Divides a number of nanoseconds by the nanoseconds of a second.
pub fn billionths(n: u32) -> (bits: u64)
    requires
        n < 1_000_000_000,
    ensures
        bits == binary64::ratio(n as nat, 1_000_000_000),
{
    if n == 0 {
        proof {
            lemma_mul_basics(binary64::per_one() as int);
            lemma_mul_basics(pow2(0) as int);
            lemma_mul_basics(1_000_000_000);
            binary64::lemma_round_exact(0, 1_000_000_000, 0);
        }
        return 0;
    }
    let wide: u128 = n as u128 * 0x400_0000_0000_0000_0000_0000;
    let q: u128 = wide / 1_000_000_000;
    let rem: u128 = wide % 1_000_000_000;
    proof {
        lemma2_to64();
        lemma2_to64_rest();
        lemma_pow2_adds(60, 30);
        lemma_pow2_adds(90, 984);
        lemma_pow2_pos(984);
        let w = pow2(984);
        let c = 1_000_000_000 * w;
        assert(n * (pow2(90) * w) == (n * pow2(90)) * w) by (nonlinear_arith);
        assert((q * 1_000_000_000 + rem) * w == q * (1_000_000_000 * w) + rem * w)
            by (nonlinear_arith);
        assert((q + 1) * c == q * c + c) by (nonlinear_arith);
        assert(rem * w < c) by (nonlinear_arith)
            requires
                rem < 1_000_000_000,
                w > 0,
                c == 1_000_000_000 * w,
        ;
        assert(rem == 0 <==> rem * w == 0) by (nonlinear_arith)
            requires
                w > 0,
                rem >= 0,
        ;
    }
    round_digits(
        q,
        984,
        rem != 0,
        Ghost(n as nat * binary64::per_one()),
        Ghost(1_000_000_000),
        Ghost(1_000_000_000 * pow2(984)),
    )
}

/// Takes one from a number between one and two to the power of 32.
pub fn minus_one(a: u64) -> (bits: u64)
    requires
        ONE <= a <= TWO_TO_32,
    ensures
        bits == binary64::difference(a, ONE),
{
    let (m, e) = split(a);
    proof {
        binary64::lemma_one();
        binary64::lemma_order(ONE, a);
        binary64::lemma_powers();
        lemma2_to64();
    }
    let d: u32 = e - 1022;
    proof {
        if d < 32 {
            lemma_pow2_strictly_increases(d as nat, 32);
        }
        let f = pow2(d as nat);
        assert(m * f <= 2 * BINADE * 0x1_0000_0000) by (nonlinear_arith)
            requires
                m <= 2 * BINADE,
                f <= 0x1_0000_0000,
        ;
        lemma_pow2_pos(d as nat);
        assert(m * f >= BINADE) by (nonlinear_arith)
            requires
                m >= BINADE,
                f >= 1,
        ;
    }
    let q: u128 = m as u128 * power_of_two(d) - BINADE as u128;
    proof {
        let f = pow2(d as nat);
        let w = pow2(1022);
        lemma_pow2_adds(1022, d as nat);
        lemma_pow2_adds(52, 1022);
        lemma_pow2_pos(1022);
        assert((m * f - BINADE) * w == m * (w * f) - BINADE * w) by (nonlinear_arith);
        assert((q + 1) * w == q * w + w) by (nonlinear_arith);
        if q == 0 {
            lemma_mul_basics(w as int);
            lemma_mul_basics(pow2(0) as int);
            binary64::lemma_round_exact(0, 1, 0);
        }
    }
    if q == 0 {
        return 0;
    }
    round_digits(
        q,
        1022,
        false,
        Ghost((binary64::units(a) - binary64::units(ONE)) as nat),
        Ghost(1),
        Ghost(pow2(1022)),
    )
}

} // verus!
