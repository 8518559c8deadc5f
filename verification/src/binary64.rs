//! Nonnegative IEEE 754 binary64 numbers, given by their representations: what a
//! representation stands for, and rounding to the nearest one.

use vstd::arithmetic::mul::*;
use vstd::arithmetic::power2::*;
use vstd::prelude::*;

verus! {

/// Distance between the representations of two neighbouring powers of two.
pub const BINADE: u64 = 0x0010_0000_0000_0000;

/// Representation of positive infinity, the largest one that is used.
pub const INFINITY: u64 = 0x7ff0_0000_0000_0000;

/// Representation of the number one.
pub const ONE: u64 = 0x3ff0_0000_0000_0000;

/// Representation of the number two.
pub const TWO: u64 = 0x4000_0000_0000_0000;

/// Representation of two to the power of 32.
pub const TWO_TO_32: u64 = 0x41f0_0000_0000_0000;

/// Binary logarithm of the gap between `bits` and the next representation.
pub open spec fn scale(bits: u64) -> nat {
    if bits < BINADE {
        0
    } else {
        (bits / BINADE - 1) as nat
    }
}

/// Significand of `bits` as an integer.
pub open spec fn significand(bits: u64) -> nat {
    if bits < BINADE {
        bits as nat
    } else {
        (BINADE + bits % BINADE) as nat
    }
}

/// Value of a nonnegative representation, counted in the smallest positive
/// number, two to the power of -1074. Every finite value is a whole multiple of
/// it. Infinity counts as two to the power of 1024, the value that rounding
/// treats it as.
pub open spec fn units(bits: u64) -> nat {
    significand(bits) * pow2(scale(bits))
}

/// The number one, counted in units.
pub open spec fn per_one() -> nat {
    pow2(1074)
}

/// Distance, scaled by `den`, between the value of `bits` and `num / den` units.
pub open spec fn distance(num: nat, den: nat, bits: u64) -> nat {
    if units(bits) * den >= num {
        (units(bits) * den - num) as nat
    } else {
        (num - units(bits) * den) as nat
    }
}

/// `bits` is the representation closest to `num / den` units; where two are
/// equally close, it is the even one.
pub open spec fn is_nearest(num: nat, den: nat, bits: u64) -> bool {
    &&& bits <= INFINITY
    &&& forall|other: u64|
        other <= INFINITY ==> {
            ||| distance(num, den, bits) < #[trigger] distance(num, den, other)
            ||| distance(num, den, bits) == distance(num, den, other) && (other == bits || bits % 2
                == 0)
        }
}

/// The representation that `num / den` units round to.
pub open spec fn round(num: nat, den: nat) -> u64 {
    choose|bits: u64| is_nearest(num, den, bits)
}

/// Correctly rounded sum.
pub open spec fn sum(a: u64, b: u64) -> u64 {
    round(units(a) + units(b), 1)
}

/// Correctly rounded product of two finite numbers.
pub open spec fn product(a: u64, b: u64) -> u64 {
    round(units(a) * units(b), per_one())
}

/// Correctly rounded difference, for `b` not above `a`.
pub open spec fn difference(a: u64, b: u64) -> u64 {
    round((units(a) - units(b)) as nat, 1)
}

/// Correctly rounded quotient of two whole numbers.
pub open spec fn ratio(n: nat, d: nat) -> u64 {
    round(n * per_one(), d)
}

/// The smaller of two numbers.
pub open spec fn smaller(a: u64, b: u64) -> u64 {
    if units(a) <= units(b) {
        a
    } else {
        b
    }
}

/// Going one representation up adds the gap that `scale` gives.
pub proof fn lemma_units_step(bits: u64)
    requires
        bits < INFINITY,
    ensures
        units((bits + 1) as u64) == units(bits) + pow2(scale(bits)),
{
    let up = (bits + 1) as u64;
    lemma_pow2_pos(scale(bits));
    if bits < BINADE {
        lemma2_to64();
        lemma_mul_basics(bits as int);
        lemma_mul_basics(bits + 1);
    } else if bits % BINADE + 1 < BINADE {
        assert(up / BINADE == bits / BINADE);
        assert(up % BINADE == bits % BINADE + 1);
        lemma_mul_is_distributive_add_other_way(
            pow2(scale(bits)) as int,
            significand(bits) as int,
            1,
        );
    } else {
        assert(up / BINADE == bits / BINADE + 1);
        assert(up % BINADE == 0);
        lemma_pow2_unfold(scale(up));
        assert(scale(up) == scale(bits) + 1);
        let p = pow2(scale(bits));
        assert(BINADE * (2 * p) == (2 * BINADE - 1) * p + p) by (nonlinear_arith);
    }
}

/// Larger representations stand for larger values.
pub proof fn lemma_units_increase(a: u64, b: u64)
    requires
        a < b <= INFINITY,
    ensures
        units(a) < units(b),
    decreases b - a,
{
    let before = (b - 1) as u64;
    lemma_units_step(before);
    lemma_pow2_pos(scale(before));
    if a < before {
        lemma_units_increase(a, before);
    }
}

/// The order of representations is the order of the values they stand for.
pub proof fn lemma_order(a: u64, b: u64)
    requires
        a <= INFINITY,
        b <= INFINITY,
    ensures
        a <= b <==> units(a) <= units(b),
        a == b <==> units(a) == units(b),
{
    if a < b {
        lemma_units_increase(a, b);
    } else if b < a {
        lemma_units_increase(b, a);
    }
}

/// No two representations are both nearest.
proof fn lemma_nearest_unique(num: nat, den: nat, a: u64, b: u64)
    requires
        den > 0,
        is_nearest(num, den, a),
        is_nearest(num, den, b),
    ensures
        a == b,
{
    if a != b {
        let low = if a < b { a } else { b };
        let high = if a < b { b } else { a };
        let middle = (low + 1) as u64;
        assert(distance(num, den, a) == distance(num, den, b));
        assert(middle < high);
        lemma_units_increase(low, middle);
        lemma_units_increase(middle, high);
        lemma_mul_strict_inequality(units(low) as int, units(middle) as int, den as int);
        lemma_mul_strict_inequality(units(middle) as int, units(high) as int, den as int);
        assert(distance(num, den, middle) < distance(num, den, low));
    }
}

/// What makes one of two neighbours, with the value between them, the nearest
/// representation.
pub open spec fn wins_between(num: nat, den: nat, low: u64, bits: u64) -> bool {
    let under = num - units(low) * den;
    let over = units((low + 1) as u64) * den - num;
    &&& 0 <= under
    &&& 0 <= over
    &&& if bits == low {
        under < over || (under == over && low % 2 == 0)
    } else {
        bits == low + 1 && (under > over || (under == over && low % 2 == 1))
    }
}

pub proof fn lemma_nearest_between(num: nat, den: nat, low: u64, bits: u64)
    requires
        den > 0,
        low < INFINITY,
        wins_between(num, den, low, bits),
    ensures
        is_nearest(num, den, bits),
{
    assert forall|other: u64| other <= INFINITY implies {
        ||| distance(num, den, bits) < #[trigger] distance(num, den, other)
        ||| distance(num, den, bits) == distance(num, den, other) && (other == bits || bits % 2
            == 0)
    } by {
        let high = (low + 1) as u64;
        if other < low {
            lemma_units_increase(other, low);
            lemma_mul_strict_inequality(units(other) as int, units(low) as int, den as int);
        } else if other > high {
            lemma_units_increase(high, other);
            lemma_mul_strict_inequality(units(high) as int, units(other) as int, den as int);
        }
    }
}

pub proof fn lemma_nearest_infinite(num: nat, den: nat)
    requires
        den > 0,
        units(INFINITY) * den <= num,
    ensures
        is_nearest(num, den, INFINITY),
{
    assert forall|other: u64| other <= INFINITY implies {
        ||| distance(num, den, INFINITY) < #[trigger] distance(num, den, other)
        ||| distance(num, den, INFINITY) == distance(num, den, other) && (other == INFINITY
            || INFINITY % 2 == 0)
    } by {
        if other < INFINITY {
            lemma_units_increase(other, INFINITY);
            lemma_mul_strict_inequality(units(other) as int, units(INFINITY) as int, den as int);
        }
    }
}

/// The nearest representation is what the value rounds to.
pub proof fn lemma_round_is(num: nat, den: nat, bits: u64)
    requires
        den > 0,
        is_nearest(num, den, bits),
    ensures
        round(num, den) == bits,
{
    lemma_nearest_unique(num, den, bits, round(num, den));
}

/// A value that has a representation rounds to it.
pub proof fn lemma_round_exact(num: nat, den: nat, bits: u64)
    requires
        den > 0,
        bits <= INFINITY,
        num == units(bits) * den,
    ensures
        round(num, den) == bits,
{
    if bits == INFINITY {
        lemma_nearest_infinite(num, den);
    } else {
        lemma_units_step(bits);
        lemma_pow2_pos(scale(bits));
        lemma_mul_strict_inequality(
            units(bits) as int,
            units((bits + 1) as u64) as int,
            den as int,
        );
        lemma_nearest_between(num, den, bits, bits);
    }
    lemma_round_is(num, den, bits);
}

/// Some pair of neighbouring representations encloses every value below
/// infinity.
proof fn lemma_bracket(num: nat, den: nat, above: u64) -> (low: u64)
    requires
        den > 0,
        0 < above <= INFINITY,
        num < units(above) * den,
    ensures
        low < above,
        units(low) * den <= num < units((low + 1) as u64) * den,
    decreases above,
{
    let low = (above - 1) as u64;
    if units(low) * den <= num {
        low
    } else {
        if low == 0 {
            lemma_mul_basics(pow2(0) as int);
            lemma_mul_basics(den as int);
        }
        lemma_bracket(num, den, low)
    }
}

/// Rounding always finds the nearest representation.
pub proof fn lemma_round_nearest(num: nat, den: nat)
    requires
        den > 0,
    ensures
        is_nearest(num, den, round(num, den)),
{
    if num >= units(INFINITY) * den {
        lemma_nearest_infinite(num, den);
    } else {
        let low = lemma_bracket(num, den, INFINITY);
        let high = (low + 1) as u64;
        let under = num - units(low) * den;
        let over = units(high) * den - num;
        let bits = if under < over || (under == over && low % 2 == 0) {
            low
        } else {
            high
        };
        lemma_nearest_between(num, den, low, bits);
    }
}

/// Rounding keeps the order of values.
pub proof fn lemma_round_monotonic(num1: nat, num2: nat, den: nat)
    requires
        den > 0,
        num1 <= num2,
    ensures
        round(num1, den) <= round(num2, den) <= INFINITY,
{
    lemma_round_nearest(num1, den);
    lemma_round_nearest(num2, den);
    let a = round(num1, den);
    let b = round(num2, den);
    if b < a {
        lemma_units_increase(b, a);
        lemma_mul_strict_inequality(units(b) as int, units(a) as int, den as int);
        assert(distance(num1, den, a) <= distance(num1, den, b));
        assert(distance(num2, den, b) <= distance(num2, den, a));
        assert(num1 == num2);
    }
}

/// Putting a significand on top of a scale gives the representation of their
/// product.
pub proof fn lemma_compose(t: u64, m: u64)
    requires
        t <= 2045,
        m < 2 * BINADE,
        t == 0 || m >= BINADE,
    ensures
        t * BINADE + m < INFINITY,
        scale((t * BINADE + m) as u64) == t,
        units((t * BINADE + m) as u64) == m * pow2(t as nat),
        units((t * BINADE + m + 1) as u64) == (m + 1) * pow2(t as nat),
        (t * BINADE + m) % 2 == m % 2,
{
    let bits = (t * BINADE + m) as u64;
    assert(bits == t * BINADE + m);
    if bits >= BINADE {
        let quotient: u64 = if m >= BINADE { (t + 1) as u64 } else { 0 };
        let rest = (m - BINADE) as u64;
        assert(bits == quotient * BINADE + rest);
        assert(bits / BINADE == quotient);
        assert(bits % BINADE == rest);
    }
    lemma_units_step(bits);
    lemma_mul_is_distributive_add_other_way(pow2(t as nat) as int, m as int, 1);
}

/// The powers of two that delimit significands and digits.
pub proof fn lemma_powers()
    ensures
        pow2(120) == 0x100_0000_0000_0000_0000_0000_0000_0000,
        pow2(52) == BINADE,
        pow2(53) == 2 * BINADE,
{
    lemma2_to64();
    lemma2_to64_rest();
    lemma_pow2_adds(60, 60);
}

/// A sum is a representation.
pub proof fn lemma_sum_bound(a: u64, b: u64)
    ensures
        sum(a, b) <= INFINITY,
{
    lemma_round_nearest(units(a) + units(b), 1);
}

/// A product is a representation.
pub proof fn lemma_product_bound(a: u64, b: u64)
    ensures
        product(a, b) <= INFINITY,
{
    lemma_pow2_pos(1074);
    lemma_round_nearest(units(a) * units(b), per_one());
}

/// Adding something below half the gap to the next number changes nothing.
pub proof fn lemma_absorbed(large: u64, small: nat)
    requires
        large < INFINITY,
        2 * small < pow2(scale(large)),
    ensures
        round(units(large) + small, 1) == large,
{
    lemma_units_step(large);
    lemma_mul_basics(units(large) as int);
    lemma_mul_basics(units((large + 1) as u64) as int);
    lemma_nearest_between(units(large) + small, 1, large, large);
    lemma_round_is(units(large) + small, 1, large);
}

/// Value of the representation of one.
pub proof fn lemma_one()
    ensures
        units(ONE) == per_one(),
{
    lemma_powers();
    lemma_pow2_adds(52, 1022);
    assert(ONE / BINADE == 1023);
}

/// Value of the representation of two.
pub proof fn lemma_two()
    ensures
        units(TWO) == 2 * per_one(),
{
    lemma_powers();
    lemma_pow2_adds(52, 1023);
    lemma_pow2_unfold(1075);
    assert(TWO / BINADE == 1024);
}

/// Every significand of at most 53 digits has a representation at every scale.
proof fn lemma_representable(m: nat, e: nat) -> (bits: u64)
    requires
        m < 2 * BINADE,
        e <= 2045,
    ensures
        bits < INFINITY,
        units(bits) == m * pow2(e),
    decreases e,
{
    if e == 0 || m >= BINADE {
        lemma_compose(e as u64, m as u64);
        (e * BINADE + m) as u64
    } else {
        lemma_pow2_unfold(e);
        let half = pow2((e - 1) as nat);
        assert(m * (2 * half) == (2 * m) * half) by (nonlinear_arith);
        lemma_representable(2 * m, (e - 1) as nat)
    }
}

/// Powers of two are represented exactly.
proof fn lemma_power_exact(e: nat) -> (bits: u64)
    requires
        1022 <= e <= 2000,
    ensures
        bits < INFINITY,
        units(bits) == pow2(e + 52),
{
    lemma_powers();
    lemma_pow2_adds(52, e);
    lemma_representable(BINADE as nat, e)
}

/// Whole numbers of at most 53 digits are represented exactly.
pub proof fn lemma_whole_exact(n: nat)
    requires
        n < 2 * BINADE,
    ensures
        units(ratio(n, 1)) == n * per_one(),
        ratio(n, 1) < INFINITY,
{
    let bits = lemma_representable(n, 1074);
    lemma_mul_basics(units(bits) as int);
    lemma_round_exact(n * per_one(), 1, bits);
}

/// Taking one from a number between one and two to the power of 32 is exact.
pub proof fn lemma_minus_one_exact(a: u64)
    requires
        ONE <= a <= TWO_TO_32,
    ensures
        units(difference(a, ONE)) == units(a) - per_one(),
        difference(a, ONE) < a,
{
    lemma_one();
    lemma_order(ONE, a);
    let e = scale(a);
    assert(1022 <= e <= 1054);
    let rest = (1074 - e) as nat;
    lemma_pow2_adds(e, rest);
    lemma_pow2_pos(e);
    let w = pow2(e);
    let u = pow2(rest);
    let m = significand(a);
    assert(m >= u) by (nonlinear_arith)
        requires
            m * w >= w * u,
            w > 0,
    ;
    assert((m - u) * w == m * w - w * u) by (nonlinear_arith);
    let bits = lemma_representable((m - u) as nat, e);
    lemma_mul_basics(units(bits) as int);
    lemma_round_exact((units(a) - units(ONE)) as nat, 1, bits);
    lemma_pow2_pos(1074);
    lemma_order(a, bits);
}

/// Whole numbers that fit into 32 digits lie where taking one away is exact.
pub proof fn lemma_whole_range(n: u32)
    ensures
        ratio(n as nat, 1) <= TWO_TO_32,
        n >= 1 ==> ratio(n as nat, 1) >= ONE,
{
    lemma_whole_exact(n as nat);
    lemma_one();
    let bits = ratio(n as nat, 1);
    let u = per_one();
    lemma_powers();
    lemma2_to64();
    lemma_pow2_adds(52, 1054);
    lemma_pow2_adds(32, 1074);
    assert(TWO_TO_32 / BINADE == 1055);
    assert(units(TWO_TO_32) == pow2(32) * u);
    assert(n * u <= pow2(32) * u) by (nonlinear_arith)
        requires
            n <= pow2(32),
    ;
    lemma_order(bits, TWO_TO_32);
    if n >= 1 {
        assert(n * u >= u) by (nonlinear_arith)
            requires
                n >= 1,
        ;
        lemma_order(ONE, bits);
    }
}

/// Durations of less than two to the power of 99 seconds are finite.
pub proof fn lemma_seconds_finite(n: nat, f: nat)
    requires
        n < pow2(99),
        f < 1_000_000_000,
    ensures
        ratio(n, 1) < INFINITY,
        ratio(f, 1_000_000_000) <= ONE,
        sum(ratio(n, 1), ratio(f, 1_000_000_000)) < INFINITY,
{
    let u = per_one();
    lemma_pow2_pos(1074);
    lemma_one();
    let limit = lemma_power_exact(1121);
    lemma_pow2_adds(99, 1074);
    assert(n * u <= pow2(99) * u) by (nonlinear_arith)
        requires
            n <= pow2(99),
    ;
    lemma_mul_basics(units(limit) as int);
    lemma_round_monotonic(n * u, units(limit), 1);
    lemma_round_exact(units(limit), 1, limit);
    assert(f * u <= units(ONE) * 1_000_000_000) by (nonlinear_arith)
        requires
            f <= 1_000_000_000,
            units(ONE) == u,
    ;
    lemma_round_monotonic(f * u, units(ONE) * 1_000_000_000, 1_000_000_000);
    lemma_round_exact(units(ONE) * 1_000_000_000, 1_000_000_000, ONE);
    let a = ratio(n, 1);
    let b = ratio(f, 1_000_000_000);
    lemma_order(a, limit);
    lemma_order(b, ONE);
    let total = lemma_power_exact(1122);
    lemma_pow2_unfold(1174);
    lemma_pow2_strictly_increases(1074, 1173);
    lemma_mul_basics(units(total) as int);
    lemma_round_monotonic(units(a) + units(b), units(total), 1);
    lemma_round_exact(units(total), 1, total);
}

/// Sums keep the order of what is added.
pub proof fn lemma_sum_monotonic(a1: u64, b1: u64, a2: u64, b2: u64)
    requires
        a1 <= a2 <= INFINITY,
        b1 <= b2 <= INFINITY,
    ensures
        sum(a1, b1) <= sum(a2, b2),
{
    lemma_order(a1, a2);
    lemma_order(b1, b2);
    lemma_round_monotonic(units(a1) + units(b1), units(a2) + units(b2), 1);
}

/// Products keep the order of what is multiplied.
pub proof fn lemma_product_monotonic(a1: u64, a2: u64, b: u64)
    requires
        a1 <= a2 <= INFINITY,
    ensures
        product(a1, b) <= product(a2, b),
{
    lemma_order(a1, a2);
    lemma_pow2_pos(1074);
    lemma_mul_inequality(units(a1) as int, units(a2) as int, units(b) as int);
    lemma_round_monotonic(units(a1) * units(b), units(a2) * units(b), per_one());
}

/// Quotients keep the order of what is divided.
pub proof fn lemma_ratio_monotonic(n1: nat, n2: nat, d: nat)
    requires
        d > 0,
        n1 <= n2,
    ensures
        ratio(n1, d) <= ratio(n2, d) <= INFINITY,
{
    lemma_mul_inequality(n1 as int, n2 as int, per_one() as int);
    lemma_round_monotonic(n1 * per_one(), n2 * per_one(), d);
}

/// Adding zero changes nothing.
pub proof fn lemma_sum_zero(a: u64)
    requires
        a <= INFINITY,
    ensures
        sum(a, 0) == a,
        sum(0, a) == a,
{
    lemma_mul_basics(pow2(0) as int);
    lemma_mul_basics(units(a) as int);
    lemma_round_exact(units(a), 1, a);
}

/// Multiplying zero gives zero.
pub proof fn lemma_product_zero(b: u64)
    ensures
        product(0, b) == 0,
{
    lemma_pow2_pos(1074);
    lemma_mul_basics(pow2(0) as int);
    lemma_mul_basics(units(b) as int);
    lemma_mul_basics(per_one() as int);
    lemma_round_exact(0, per_one(), 0);
}

/// Dividing zero gives zero.
pub proof fn lemma_ratio_zero(d: nat)
    requires
        d > 0,
    ensures
        ratio(0, d) == 0,
{
    lemma_mul_basics(pow2(0) as int);
    lemma_mul_basics(per_one() as int);
    lemma_mul_basics(d as int);
    lemma_round_exact(0, d, 0);
}

/// A fraction of a second stays below one second.
proof fn lemma_fraction_below_one(f: nat)
    requires
        f < 1_000_000_000,
    ensures
        ratio(f, 1_000_000_000) < ONE,
{
    let below = (ONE - 1) as u64;
    let w = pow2(1021);
    lemma2_to64();
    lemma2_to64_rest();
    lemma_pow2_adds(53, 1021);
    assert(below / BINADE == 1022);
    assert(units(below) == (2 * BINADE - 1) * w);
    assert(f * (2 * BINADE * w) <= ((2 * BINADE - 1) * w) * 1_000_000_000) by (nonlinear_arith)
        requires
            f <= 999_999_999,
            BINADE == 0x0010_0000_0000_0000,
    ;
    lemma_round_monotonic(f * per_one(), units(below) * 1_000_000_000, 1_000_000_000);
    lemma_round_exact(units(below) * 1_000_000_000, 1_000_000_000, below);
}

/// A fraction of a second on top of whole seconds does not pass the next whole
/// second.
proof fn lemma_fraction_within_second(n: nat, f: nat)
    requires
        f < 1_000_000_000,
    ensures
        sum(ratio(n, 1), ratio(f, 1_000_000_000)) <= ratio(n + 1, 1),
{
    let u = per_one();
    let a = ratio(n, 1);
    let b = ratio(f, 1_000_000_000);
    let next = ratio(n + 1, 1);
    lemma_powers();
    lemma_pow2_pos(1074);
    lemma_ratio_monotonic(n, n + 1, 1);
    lemma_fraction_below_one(f);
    lemma_units_increase(b, ONE);
    lemma_one();
    let edge = lemma_power_exact(1075);
    lemma_pow2_adds(53, 1074);
    lemma_mul_basics(units(edge) as int);
    lemma_round_exact((2 * BINADE) as nat * u, 1, edge);
    if n + 1 <= 2 * BINADE {
        lemma_whole_exact(n);
        if n + 1 < 2 * BINADE {
            lemma_whole_exact(n + 1);
        }
        assert((n + 1) * u == n * u + u) by (nonlinear_arith);
        lemma_mul_basics(units(next) as int);
        lemma_round_monotonic(units(a) + units(b), units(next), 1);
        lemma_round_exact(units(next), 1, next);
    } else {
        lemma_ratio_monotonic((2 * BINADE) as nat, n, 1);
        assert(scale(edge) == 1075) by {
            lemma_compose(1075, BINADE);
            lemma_pow2_adds(52, 1075);
            lemma_order(edge, (1075 * BINADE + BINADE) as u64);
        }
        if a < INFINITY {
            assert(scale(a) >= 1075);
            lemma_pow2_unfold(1075);
            if scale(a) > 1075 {
                lemma_pow2_strictly_increases(1075, scale(a));
            }
            lemma_absorbed(a, units(b));
        } else {
            lemma_sum_bound(a, b);
        }
    }
}

/// Longer durations are not fewer seconds.
pub proof fn lemma_seconds_monotonic(n1: nat, f1: nat, n2: nat, f2: nat)
    requires
        n1 < n2 || n1 == n2 && f1 <= f2,
        f1 < 1_000_000_000,
        f2 < 1_000_000_000,
    ensures
        sum(ratio(n1, 1), ratio(f1, 1_000_000_000)) <= sum(ratio(n2, 1), ratio(f2, 1_000_000_000)),
{
    lemma_ratio_monotonic(n1, n2, 1);
    if n1 == n2 {
        lemma_ratio_monotonic(f1, f2, 1_000_000_000);
        lemma_sum_monotonic(
            ratio(n1, 1),
            ratio(f1, 1_000_000_000),
            ratio(n2, 1),
            ratio(f2, 1_000_000_000),
        );
    } else {
        lemma_fraction_within_second(n1, f1);
        lemma_ratio_monotonic(n1 + 1, n2, 1);
        lemma_ratio_monotonic(0, f2, 1_000_000_000);
        lemma_sum_zero(ratio(n2, 1));
        lemma_sum_monotonic(ratio(n2, 1), 0, ratio(n2, 1), ratio(f2, 1_000_000_000));
    }
}

/// Rounding at most doubles a value.
pub proof fn lemma_round_at_most_doubles(num: nat, den: nat)
    requires
        den > 0,
    ensures
        units(round(num, den)) * den <= 2 * num,
{
    lemma_round_nearest(num, den);
    lemma_mul_basics(pow2(0) as int);
    lemma_mul_basics(den as int);
    assert(distance(num, den, 0) == num);
}

/// A rounded sum gains at most twice what was added.
pub proof fn lemma_sum_gain(a: u64, b: u64)
    requires
        a <= INFINITY,
    ensures
        units(sum(a, b)) <= units(a) + 2 * units(b),
{
    let num = units(a) + units(b);
    lemma_round_nearest(num, 1);
    lemma_mul_basics(units(a) as int);
    lemma_mul_basics(units(round(num, 1)) as int);
    assert(distance(num, 1, a) == units(b));
}

/// Rounding changes a value by at most two to the power of -53 of it, or half a unit
/// where it is below the smallest normal number; only what is beyond the largest finite
/// number loses more.
pub proof fn lemma_round_error(num: nat, den: nat)
    requires
        den > 0,
    ensures
        ({
            let value = units(round(num, den)) * den;
            let bound = if num >= 0x10_0000_0000_0000 * den {
                num
            } else {
                0x10_0000_0000_0000 * den
            };
            &&& 0x20_0000_0000_0000 * (value - num) <= bound
            &&& num < units(INFINITY) * den ==> 0x20_0000_0000_0000 * (num - value) <= bound
            &&& num >= units(INFINITY) * den ==> round(num, den) == INFINITY
        }),
{
    let bits = round(num, den);
    if num >= units(INFINITY) * den {
        lemma_nearest_infinite(num, den);
        lemma_round_is(num, den, INFINITY);
    } else {
        let low = lemma_bracket(num, den, INFINITY);
        let high = (low + 1) as u64;
        let gap = pow2(scale(low));
        let m = significand(low);
        lemma_units_step(low);
        lemma_round_nearest(num, den);
        assert(distance(num, den, bits) <= distance(num, den, low));
        assert(distance(num, den, bits) <= distance(num, den, high));
        assert(units(high) * den == units(low) * den + gap * den) by (nonlinear_arith)
            requires
                units(high) == units(low) + gap,
        ;
        if low < BINADE {
            lemma2_to64();
            lemma_mul_basics(den as int);
        } else {
            assert(0x10_0000_0000_0000 * (gap * den) <= (m * gap) * den) by (nonlinear_arith)
                requires
                    m >= 0x10_0000_0000_0000,
            ;
        }
    }
}

/// A whole number of units changes by at most two to the power of -53 of it.
pub proof fn lemma_round_error_units(num: nat)
    requires
        num < units(INFINITY),
    ensures
        0x20_0000_0000_0000 * (units(round(num, 1)) - num) <= num,
        0x20_0000_0000_0000 * (num - units(round(num, 1))) <= num,
{
    lemma_mul_basics(units(round(num, 1)) as int);
    lemma_mul_basics(units(INFINITY) as int);
    if num < BINADE {
        lemma2_to64();
        lemma_mul_basics(num as int);
        lemma_round_exact(num, 1, num as u64);
    } else {
        lemma_round_error(num, 1);
    }
}

/// Seconds made of whole seconds and a fraction differ from the duration by at most two
/// to the power of -51 of it.
pub proof fn lemma_seconds_error(n: nat, f: nat)
    requires
        n < pow2(99),
        f < 1_000_000_000,
    ensures
        ({
            let seconds = units(sum(ratio(n, 1), ratio(f, 1_000_000_000))) * 1_000_000_000;
            let exact = (n * 1_000_000_000 + f) * per_one();
            &&& 0x10_0000_0000_0000 * (seconds - exact) <= 2 * exact
            &&& 0x10_0000_0000_0000 * (exact - seconds) <= 2 * exact
        }),
{
    let u = per_one();
    let a = ratio(n, 1);
    let b = ratio(f, 1_000_000_000);
    lemma_powers();
    lemma_pow2_adds(99, 1074);
    lemma_pow2_pos(1074);
    lemma_pow2_adds(52, 2046);
    lemma_pow2_unfold(1174);
    lemma_pow2_strictly_increases(1174, 2098);
    lemma_pow2_strictly_increases(1074, 1173);
    assert(INFINITY / BINADE == 2047);
    assert(units(INFINITY) == pow2(2098));
    assert(n * u < pow2(99) * u) by (nonlinear_arith)
        requires
            n < pow2(99),
            u > 0,
    ;
    lemma_round_error_units(n * u);
    lemma_seconds_finite(n, f);
    lemma_one();
    lemma_order(b, ONE);
    let limit = lemma_power_exact(1121);
    lemma_mul_basics(units(limit) as int);
    lemma_round_exact(units(limit), 1, limit);
    lemma_round_monotonic(n * u, units(limit), 1);
    lemma_order(a, limit);
    lemma_round_error_units(units(a) + units(b));
    if f == 0 {
        lemma_ratio_zero(1_000_000_000);
        lemma_mul_basics(pow2(0) as int);
        lemma_mul_basics(u as int);
    } else {
        lemma2_to64();
        lemma_pow2_adds(52, 1022);
        lemma_pow2_strictly_increases(30, 1022);
        assert(f * (0x10_0000_0000_0000 * pow2(1022)) >= 0x10_0000_0000_0000 * 1_000_000_000)
            by (nonlinear_arith)
            requires
                f >= 1,
                pow2(1022) >= 1_000_000_000,
        ;
        lemma_round_error(f * u, 1_000_000_000);
        assert(f * u < units(INFINITY) * 1_000_000_000) by {
            assert(f * u <= 1_000_000_000 * u) by (nonlinear_arith)
                requires
                    f <= 1_000_000_000,
            ;
        }
    }
    assert((n * 1_000_000_000 + f) * u == 1_000_000_000 * (n * u) + f * u) by (nonlinear_arith);
}

} // verus!
