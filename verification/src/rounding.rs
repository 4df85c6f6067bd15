//! Rounding to nearest, ties to even, as binary floating point has it.
use vstd::prelude::*;

verus! {

/// A quotient rounded to nearest, ties to even.
pub open spec fn rounded(n: int, d: int) -> int {
    let q = n / d;
    let r = n % d;
    if 2 * r < d {
        q
    } else if 2 * r > d {
        q + 1
    } else {
        q + q % 2
    }
}

pub(crate) fn round_half_even(n: u128, d: u128) -> (q: u128)
    requires
        0 < d <= 0x1_0000_0000_0000_0000_0000,
        n <= 0x1_0000_0000_0000_0000_0000_0000,
    ensures
        q == rounded(n as int, d as int),
{
    let q: u128 = n / d;
    let r: u128 = n % d;
    proof {
        assert(n as int / (d as int) <= n) by (nonlinear_arith)
            requires
                d > 0,
                n >= 0,
        ;
        assert(0 <= n as int % (d as int) < d) by (nonlinear_arith)
            requires
                d > 0,
        ;
    }
    if 2 * r < d {
        q
    } else if 2 * r > d {
        q + 1
    } else {
        q + q % 2
    }
}

/// 2^24: whole numbers up to it are exact in single precision.
pub const SINGLE: u64 = 0x100_0000;

/// The smallest power of two, from `unit` on, under which `n` keeps to 24
/// bits.
pub open spec fn single_unit(n: int, unit: int) -> int
    decreases n - unit,
{
    if unit > 0 && n >= SINGLE * unit && unit < n {
        single_unit(n, 2 * unit)
    } else {
        unit
    }
}

/// A whole number in single precision, which has 24 bits.
pub open spec fn single(n: int) -> int {
    let u = single_unit(n, 1);
    rounded(n, u) * u
}

/// Numbers of at most 24 bits are exact.
pub proof fn lemma_single_is_exact(n: int)
    requires
        0 <= n < SINGLE,
    ensures
        single(n) == n,
{
    assert(single_unit(n, 1) == 1);
    assert(n / 1 == n && n % 1 == 0);
    assert(rounded(n, 1) == n);
}

/// Larger ones stay large.
pub proof fn lemma_single_stays_large(n: int)
    requires
        n >= SINGLE,
    ensures
        single(n) >= SINGLE,
{
    lemma_single_unit(n, 1);
    let u = single_unit(n, 1);
    let q = rounded(n, u);
    if u == 1 {
        assert(q == n);
    } else {
        assert(n >= SINGLE * (u / 2));
        assert(u % 2 == 0);
        let h = u / 2;
        assert(q * u >= SINGLE) by (nonlinear_arith)
            requires
                q == rounded(n, u),
                u == 2 * h,
                h >= 1,
                n >= 0x100_0000 * h,
        {
            let k = n / u;
            assert(n == k * u + n % u && 0 <= n % u < u);
            assert(q >= k);
            assert(k * u >= 0x100_0000 * h - u);
            assert(k * u > (0x80_0000 - 1) * u - 1);
            assert(k >= 0x80_0000 - 1);
            if k < 0x80_0000 {
                assert(k * u == (0x80_0000 - 1) * u);
                assert(n < k * u + u);
                assert(false);
            }
            assert(q * u >= 0x80_0000 * u);
            assert(u >= 2);
        }
    }
}

proof fn lemma_single_unit(n: int, unit: int)
    requires
        unit >= 1,
        unit == 1 || (n >= SINGLE * (unit / 2) && unit % 2 == 0),
    ensures
        ({
            let u = single_unit(n, unit);
            &&& u >= unit
            &&& u == 1 || (n >= SINGLE * (u / 2) && u % 2 == 0)
            &&& n < SINGLE * u || u >= n
        }),
    decreases n - unit,
{
    if n >= SINGLE * unit && unit < n {
        lemma_single_unit(n, 2 * unit);
    }
}

/// Numbers of at most 32 bits round to at most 2^32.
pub proof fn lemma_single_within(n: int)
    requires
        0 <= n <= u32::MAX,
    ensures
        single(n) <= 0x1_0000_0000,
{
    reveal_with_fuel(single_unit, 10);
    let u = single_unit(n, 1);
    assert(u == 1 || u == 2 || u == 4 || u == 8 || u == 16 || u == 32 || u == 64 || u == 128 || u
        == 256);
    let q = rounded(n, u);
    assert(q <= n / u + 1);
    if u == 256 {
        assert(n / 256 <= 0xff_ffff);
        assert(q <= 0x100_0000);
    } else {
        assert(n < SINGLE * u);
        assert(q * u <= n + u) by (nonlinear_arith)
            requires
                q <= n / u + 1,
                u >= 1,
                n >= 0,
        ;
    }
}

/// A whole number in single precision.
pub fn single_of(n: u64) -> (m: u64)
    requires
        n <= 0x10_0000_0000,
    ensures
        m == single(n as int),
        m <= 0x20_0000_0000,
{
    let mut unit: u64 = 1;
    while n >= SINGLE * unit
        invariant
            1 <= unit <= 0x2000,
            n <= 0x10_0000_0000,
            single_unit(n as int, 1) == single_unit(n as int, unit as int),
        decreases 0x4000 - unit,
    {
        unit = 2 * unit;
    }
    let q: u128 = round_half_even(n as u128, unit as u128);
    assert(q * unit <= n + unit) by (nonlinear_arith)
        requires
            q == rounded(n as int, unit as int),
            unit >= 1,
            n >= 0,
    ;
    (q as u64) * unit
}

// -------------------------------------------------------------------- laws
/// A rounded quotient is the nearest whole number, and of two equally near the
/// even one.
pub proof fn lemma_rounded_is_nearest(n: int, d: int)
    requires
        0 < d,
    ensures
        2 * (rounded(n, d) * d) <= 2 * n + d,
        2 * (rounded(n, d) * d) >= 2 * n - d,
        2 * (rounded(n, d) * d) == 2 * n + d ==> rounded(n, d) % 2 == 0,
        2 * (rounded(n, d) * d) == 2 * n - d ==> rounded(n, d) % 2 == 0,
{
    let q = n / d;
    let r = n % d;
    assert(n == d * q + r && 0 <= r < d) by (nonlinear_arith)
        requires
            q == n / d,
            r == n % d,
            d > 0,
    ;
    let k = rounded(n, d);
    assert(q * d == d * q && (q + 1) * d == d * q + d) by (nonlinear_arith);
    if 2 * r == d {
        assert(q % 2 == 0 || q % 2 == 1);
    }
}

} // verus!
