//! What the arithmetic gives: of all representations the one closest to the exact result.

use crate::arithmetic;
use crate::binary64;
use crate::binary64::{units, INFINITY, ONE, TWO, TWO_TO_32};
use vstd::arithmetic::power2::*;
use vstd::prelude::*;

verus! {

/// How far `a` is from `b`.
pub open spec fn apart(a: int, b: int) -> int {
    if a <= b {
        b - a
    } else {
        a - b
    }
}

/// Of the representations `bits` and `other`, the first stands for a value that is closer to
/// `exact`, both weighed by `den`; or as close, with an even last digit.
pub open spec fn not_worse(bits: u64, other: u64, exact: int, den: int) -> bool {
    ||| apart(units(bits) * den, exact) < apart(units(other) * den, exact)
    ||| apart(units(bits) * den, exact) == apart(units(other) * den, exact) && (bits == other
        || bits % 2 == 0)
}

/// A normal representation with the exponent `e` and the digits `m` stands for one and the
/// digits behind the point, times two to the power of `e - 1023`; the number one is two to
/// the power of 1074 units.
pub proof fn law_value_of_a_representation(e: int, m: int)
    requires
        1 <= e < 2047,
        0 <= m < 0x10_0000_0000_0000,
    ensures
        units((e * 0x10_0000_0000_0000 + m) as u64) == (0x10_0000_0000_0000 + m) * pow2(
            (e - 1) as nat,
        ),
        units(m as u64) == m,
        units(0x3ff0_0000_0000_0000) == pow2(1074),
        units(0x7ff0_0000_0000_0000) == pow2(2098),
{
    let bits = (e * 0x10_0000_0000_0000 + m) as u64;
    assert(bits == e * 0x10_0000_0000_0000 + m);
    assert(bits / 0x10_0000_0000_0000 == e);
    assert(bits % 0x10_0000_0000_0000 == m);
    binary64::lemma_one();
    binary64::lemma_powers();
    lemma2_to64();
    lemma_pow2_adds(52, 2046);
    vstd::arithmetic::mul::lemma_mul_basics(m);
    assert(INFINITY / 0x10_0000_0000_0000 == 2047);
}

/// The named representations stand for what their names say.
pub proof fn law_named_numbers()
    ensures
        units(ONE) == pow2(1074),
        units(TWO) == 2 * pow2(1074),
        units(TWO_TO_32) == 0x1_0000_0000 * pow2(1074),
        units(INFINITY) == pow2(2098),
        INFINITY == 0x7ff0_0000_0000_0000,
{
    binary64::lemma_one();
    binary64::lemma_two();
    binary64::lemma_powers();
    lemma2_to64();
    lemma_pow2_adds(52, 1054);
    lemma_pow2_adds(32, 1074);
    lemma_pow2_adds(52, 2046);
    assert(TWO_TO_32 / 0x10_0000_0000_0000 == 1055);
    assert(INFINITY / 0x10_0000_0000_0000 == 2047);
}

/// Any two numbers can be added, any two finite ones multiplied, and one can be taken from
/// any number that a burst can leave.
pub proof fn law_arithmetic_is_possible(a: u64, b: u64, n: u128, f: u32)
    ensures
        a <= INFINITY && b <= INFINITY ==> call_requires(arithmetic::sum_of, (a, b)),
        a < INFINITY && b < INFINITY ==> call_requires(arithmetic::product_of, (a, b)),
        n < 0x100_0000_0000_0000_0000_0000_0000_0000 ==> call_requires(arithmetic::whole, (n,)),
        f < 1_000_000_000 ==> call_requires(arithmetic::billionths, (f,)),
        ONE <= a <= TWO_TO_32 ==> call_requires(arithmetic::minus_one, (a,)),
{
}

proof fn lemma_not_worse(num: nat, den: nat, other: u64)
    requires
        den > 0,
        other <= INFINITY,
    ensures
        binary64::round(num, den) <= INFINITY,
        not_worse(binary64::round(num, den), other, num as int, den as int),
{
    binary64::lemma_round_nearest(num, den);
    let bits = binary64::round(num, den);
    assert(binary64::distance(num, den, other) == apart(units(other) * den as int, num as int));
    assert(binary64::distance(num, den, bits) == apart(units(bits) * den as int, num as int));
}

/// A sum is not worse than any other number for the exact sum.
pub proof fn law_sum_is_closest(a: u64, b: u64, sum: u64, other: u64)
    requires
        a <= INFINITY,
        b <= INFINITY,
        other <= INFINITY,
        call_ensures(arithmetic::sum_of, (a, b), sum),
    ensures
        sum <= INFINITY,
        not_worse(sum, other, (units(a) + units(b)) as int, 1),
{
    lemma_not_worse(units(a) + units(b), 1, other);
}

/// A product is not worse than any other number for the exact product.
pub proof fn law_product_is_closest(a: u64, b: u64, product: u64, other: u64)
    requires
        a < INFINITY,
        b < INFINITY,
        other <= INFINITY,
        call_ensures(arithmetic::product_of, (a, b), product),
    ensures
        product <= INFINITY,
        not_worse(product, other, (units(a) * units(b)) as int, pow2(1074) as int),
{
    lemma_pow2_pos(1074);
    lemma_not_worse(units(a) * units(b), pow2(1074), other);
}

/// A converted whole number is not worse than any other for it.
pub proof fn law_whole_is_closest(n: u128, bits: u64, other: u64)
    requires
        n < 0x100_0000_0000_0000_0000_0000_0000_0000,
        other <= INFINITY,
        call_ensures(arithmetic::whole, (n,), bits),
    ensures
        bits <= INFINITY,
        not_worse(bits, other, n * pow2(1074), 1),
{
    lemma_not_worse(n as nat * pow2(1074), 1, other);
}

/// Billionths are not worse than any other number for the exact fraction.
pub proof fn law_billionths_are_closest(n: u32, bits: u64, other: u64)
    requires
        n < 1_000_000_000,
        other <= INFINITY,
        call_ensures(arithmetic::billionths, (n,), bits),
    ensures
        bits <= INFINITY,
        not_worse(bits, other, n * pow2(1074), 1_000_000_000),
{
    lemma_not_worse(n as nat * pow2(1074), 1_000_000_000, other);
}

/// Taking one away is exact.
pub proof fn law_one_is_taken_exactly(a: u64, bits: u64)
    requires
        ONE <= a <= TWO_TO_32,
        call_ensures(arithmetic::minus_one, (a,), bits),
    ensures
        units(bits) == units(a) - pow2(1074),
{
    binary64::lemma_minus_one_exact(a);
}

} // verus!
