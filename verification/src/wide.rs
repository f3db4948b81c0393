//! Multiplication followed by division without intermediate overflow.
use vstd::arithmetic::div_mod::{
    lemma_div_denominator, lemma_fundamental_div_mod, lemma_fundamental_div_mod_converse,
    lemma_mod_breakdown,
};
use vstd::arithmetic::power2::{lemma_pow2_adds, lemma_pow2_pos, lemma_pow2_unfold, pow2};
use vstd::bits::lemma_u128_shr_is_div;
use vstd::prelude::*;

verus! {

/// 2^64.
pub open spec fn two64() -> int {
    0x1_0000_0000_0000_0000int
}

/// 2^128.
pub open spec fn two128() -> int {
    0x1_0000_0000_0000_0000_0000_0000_0000_0000int
}

/// Restoring long division as `mul_div_u128` runs it: the bits of `lo` are
/// shifted into `rem` from bit `j - 1` down to bit 0, the shift keeping only
/// the low 128 bits of the remainder. Returns the quotient.
pub open spec fn long_div(rem: u128, quo: u128, lo: u128, d: u128, j: nat) -> u128
    decreases j,
{
    if j == 0 {
        quo
    } else {
        let k = (j - 1) as u128;
        let r = (rem << 1u128) | ((lo >> k) & 1u128);
        if r >= d {
            long_div((r - d) as u128, quo | (1u128 << k), lo, d, (j - 1) as nat)
        } else {
            long_div(r, quo, lo, d, (j - 1) as nat)
        }
    }
}

/// What `mul_div_u128(a, b, d)` returns: the quotient of `a * b` by `d` and
/// whether it does not fit in 128 bits.
pub open spec fn spec_mul_div_u128(a: u128, b: u128, d: u128) -> (u128, bool) {
    let p = a * b;
    if p <= u128::MAX {
        ((p / (d as int)) as u128, false)
    } else if p / two128() >= d {
        (0, true)
    } else {
        (long_div((p / two128()) as u128, 0, (p % two128()) as u128, d, 128), false)
    }
}

proof fn lemma_split64(x: u128)
    ensures
        x & 0xFFFF_FFFF_FFFF_FFFFu128 == x % 0x1_0000_0000_0000_0000u128,
        x >> 64u128 == x / 0x1_0000_0000_0000_0000u128,
        x == (x >> 64u128) * two64() + (x & 0xFFFF_FFFF_FFFF_FFFFu128),
        x >> 64u128 < two64(),
{
    assert(x & 0xFFFF_FFFF_FFFF_FFFFu128 == x % 0x1_0000_0000_0000_0000u128) by (bit_vector);
    assert(x >> 64u128 == x / 0x1_0000_0000_0000_0000u128) by (bit_vector);
}

proof fn lemma_join64(m: u128, l: u128)
    requires
        l < two64(),
    ensures
        (m << 64u128) | l == (m % 0x1_0000_0000_0000_0000u128) * two64() + l,
{
    assert((m << 64u128) | l == (m % 0x1_0000_0000_0000_0000u128) * 0x1_0000_0000_0000_0000u128
        + l) by (bit_vector)
        requires
            l < 0x1_0000_0000_0000_0000u128,
    ;
}

proof fn lemma_pow2_128()
    ensures
        pow2(128) == two128(),
        pow2(127) * 2 == two128(),
{
    vstd::arithmetic::power2::lemma2_to64();
    vstd::arithmetic::power2::lemma2_to64_rest();
    lemma_pow2_adds(64, 64);
    lemma_pow2_adds(63, 64);
}

proof fn lemma_one_shl(k: u128)
    requires
        k < 128,
    ensures
        (1u128 << k) == pow2(k as nat),
    decreases k,
{
    if k == 0 {
        assert(1u128 << 0u128 == 1u128) by (bit_vector);
        vstd::arithmetic::power2::lemma2_to64();
    } else {
        let k1 = (k - 1) as u128;
        lemma_one_shl(k1);
        assert(1u128 << k == (1u128 << k1) * 2) by (bit_vector)
            requires
                k1 + 1 == k,
                k < 128,
        ;
        lemma_pow2_unfold(k as nat);
    }
}

proof fn lemma_bit_facts(rem: u128, lo: u128, k: u128)
    requires
        rem < 0x8000_0000_0000_0000_0000_0000_0000_0000u128,
        k < 128,
    ensures
        (rem << 1u128) | ((lo >> k) & 1u128) == 2 * rem + (lo >> k) % 2,
{
    assert((rem << 1u128) | ((lo >> k) & 1u128) == 2 * rem + (lo >> k) % 2) by (bit_vector)
        requires
            rem < 0x8000_0000_0000_0000_0000_0000_0000_0000u128,
            k < 128,
    ;
}

proof fn lemma_set_bit(x: u128, k: u128)
    requires
        k < 128,
        (x >> k) % 2 == 0,
    ensures
        x | (1u128 << k) == x + (1u128 << k),
{
    assert(x | (1u128 << k) == x + (1u128 << k)) by (bit_vector)
        requires
            k < 128,
            (x >> k) % 2 == 0,
    ;
}

/// The long division of `(q * d + rem) * 2^j + (lo mod 2^j)` by `d`, run on
/// the remaining `j` bits, yields its exact quotient when `d < 2^127`.
proof fn lemma_long_div(rem: u128, quo: u128, lo: u128, d: u128, j: nat, q: nat)
    requires
        0 < d,
        d as int * 2 <= two128(),
        j <= 128,
        rem < d,
        quo == q * pow2(j),
    ensures
        long_div(rem, quo, lo, d, j) as int == ((q * d + rem) * pow2(j) + (lo as int) % (pow2(j) as int))
            / (d as int),
    decreases j,
{
    lemma_pow2_pos(j);
    if j == 0 {
        vstd::arithmetic::power2::lemma2_to64();
        lemma_fundamental_div_mod_converse(q * d + rem, d as int, q as int, rem as int);
    } else {
        let k = (j - 1) as u128;
        let j1 = (j - 1) as nat;
        lemma_pow2_pos(j1);
        lemma_pow2_unfold(j);
        lemma_u128_shr_is_div(lo, k);
        lemma_bit_facts(rem, lo, k);
        let bit = (lo as int / pow2(j1) as int) % 2;
        let r = (rem << 1u128) | ((lo >> k) & 1u128);
        assert(r == 2 * rem + bit);
        // lo mod 2^j splits into the bit at position j - 1 and the bits below it.
        lemma_mod_breakdown(lo as int, pow2(j1) as int, 2);
        assert(pow2(j1) * 2 == pow2(j));
        assert((lo as int) % (pow2(j) as int) == pow2(j1) * bit + (lo as int) % (pow2(j1) as int));
        let total = (q * d + rem) * pow2(j) + (lo as int) % (pow2(j) as int);
        assert(total == (2 * q * d + r) * pow2(j1) + (lo as int) % (pow2(j1) as int)) by (nonlinear_arith)
            requires
                total == (q * d + rem) * pow2(j) + (lo as int) % (pow2(j) as int),
                pow2(j) == pow2(j1) * 2,
                (lo as int) % (pow2(j) as int) == pow2(j1) * bit + (lo as int) % (pow2(j1) as int),
                r == 2 * rem + bit,
        ;
        // quo has no bit at position j - 1.
        assert(quo == (2 * q) * pow2(j1)) by (nonlinear_arith)
            requires
                quo == q * pow2(j),
                pow2(j) == pow2(j1) * 2,
        ;
        lemma_u128_shr_is_div(quo, k);
        vstd::arithmetic::div_mod::lemma_div_multiples_vanish((2 * q) as int, pow2(j1) as int);
        assert((quo >> k) == 2 * q);
        if r >= d {
            lemma_one_shl(k);
            lemma_set_bit(quo, k);
            let quo2 = quo | (1u128 << k);
            assert(quo2 == (2 * q + 1) * pow2(j1)) by (nonlinear_arith)
                requires
                    quo == (2 * q) * pow2(j1),
                    quo2 == quo + pow2(j1),
            ;
            lemma_long_div((r - d) as u128, quo2, lo, d, j1, (2 * q + 1) as nat);
            assert(((2 * q + 1) * d + (r - d)) == 2 * q * d + r) by (nonlinear_arith);
        } else {
            lemma_long_div(r, quo, lo, d, j1, (2 * q) as nat);
        }
    }
}

/// Computes `a * b / d` and whether that quotient does not fit in 128 bits.
/// When `a * b` fits in 128 bits, or `d` is at most 2^127, the quotient is
/// `a * b / d` rounded down. Otherwise it is what the restoring long division
/// over the 256-bit product gives (see `long_div`): that division keeps the
/// remainder in 128 bits, so with a divisor above 2^127 the remainder's top
/// bit is lost and the quotient can differ from the true one. A `d` of zero
/// gives the overflow flag when `a * b` itself does not fit in 128 bits.
pub fn mul_div_u128(a: u128, b: u128, d: u128) -> (r: (u128, bool))
    requires
        d != 0 || a * b > u128::MAX,
    ensures
        r == spec_mul_div_u128(a, b, d),
        d == 0 ==> r == (0u128, true),
        d != 0 ==> (r.1 <==> (a * b) / (d as int) > u128::MAX),
        d != 0 && (a * b <= u128::MAX || d as int * 2 <= two128()) && !r.1 ==> r.0 == (a * b) / (
        d as int),
{
    if let Some(prod) = a.checked_mul(b) {
        proof {
            if d != 0 {
                vstd::arithmetic::div_mod::lemma_div_basics(prod as int);
                vstd::arithmetic::div_mod::lemma_div_is_ordered_by_denominator(prod as int, 1, d as int);
            }
        }
        return (prod / d, false);
    }
    let a_low = a & 0xFFFFFFFFFFFFFFFF;
    let a_high = a >> 64;
    let b_low = b & 0xFFFFFFFFFFFFFFFF;
    let b_high = b >> 64;
    proof {
        lemma_split64(a);
        lemma_split64(b);
        assert(a_low * b_low < two128()) by (nonlinear_arith)
            requires a_low < two64(), b_low < two64();
        assert(a_low * b_high < two128()) by (nonlinear_arith)
            requires a_low < two64(), b_high < two64();
        assert(a_high * b_low < two128()) by (nonlinear_arith)
            requires a_high < two64(), b_low < two64();
        assert(a_high * b_high < two128()) by (nonlinear_arith)
            requires a_high < two64(), b_high < two64();
    }
    let p0 = a_low * b_low;
    let p1 = a_low * b_high;
    let p2 = a_high * b_low;
    let p3 = a_high * b_high;
    proof {
        lemma_split64(p0);
        lemma_split64(p1);
        lemma_split64(p2);
        lemma_split64(p3);
    }
    let mid = (p1 & 0xFFFFFFFFFFFFFFFF) + (p2 & 0xFFFFFFFFFFFFFFFF) + (p0 >> 64);
    proof {
        lemma_split64(mid);
        let p = a * b;
        let p1h = p1 >> 64u128;
        let p1l = p1 & 0xFFFF_FFFF_FFFF_FFFFu128;
        let p2h = p2 >> 64u128;
        let p2l = p2 & 0xFFFF_FFFF_FFFF_FFFFu128;
        let p0h = p0 >> 64u128;
        let p0l = p0 & 0xFFFF_FFFF_FFFF_FFFFu128;
        let midh = mid >> 64u128;
        let midl = mid & 0xFFFF_FFFF_FFFF_FFFFu128;
        assert(p == (p3 + p1h + p2h + midh) * two128() + midl * two64() + p0l) by (nonlinear_arith)
            requires
                a == a_high * two64() + a_low,
                b == b_high * two64() + b_low,
                p == a * b,
                p0 == a_low * b_low,
                p1 == a_low * b_high,
                p2 == a_high * b_low,
                p3 == a_high * b_high,
                p0 == p0h * two64() + p0l,
                p1 == p1h * two64() + p1l,
                p2 == p2h * two64() + p2l,
                mid == p1l + p2l + p0h,
                mid == midh * two64() + midl,
                two128() == two64() * two64(),
        ;
        assert(p < two128() * two128()) by (nonlinear_arith)
            requires p == a * b, a < two128(), b < two128();
        assert(midl * two64() + p0l < two128()) by (nonlinear_arith)
            requires midl < two64(), p0l < two64(), two128() == two64() * two64();
        lemma_fundamental_div_mod_converse(
            p,
            two128(),
            (p3 + p1h + p2h + midh) as int,
            midl * two64() + p0l,
        );
        assert(p3 + p1h + p2h + midh < two128()) by (nonlinear_arith)
            requires
                p3 + p1h + p2h + midh == p / two128(),
                p < two128() * two128(),
        ;
        lemma_join64(mid, p0l);
    }
    let high = p3 + (p1 >> 64) + (p2 >> 64) + (mid >> 64);
    let low = (mid << 64) | (p0 & 0xFFFFFFFFFFFFFFFF);
    assert(high == (a * b) / two128() && low == (a * b) % two128());
    if high >= d {
        proof {
            if d != 0 {
                let p = a * b;
                lemma_fundamental_div_mod(p, two128());
                assert(p >= two128() * d) by (nonlinear_arith)
                    requires p == two128() * (p / two128()) + p % two128(), p % two128() >= 0,
                        p / two128() >= d, d > 0;
                vstd::arithmetic::div_mod::lemma_div_is_ordered(two128() * d, p, d as int);
                vstd::arithmetic::div_mod::lemma_div_by_multiple(two128(), d as int);
            }
        }
        return (0, true);
    }
    let mut quotient = 0u128;
    let mut remainder = high;
    let mut j: u128 = 128;
    while j > 0
        invariant
            j <= 128,
            long_div(remainder, quotient, low, d, j as nat) == long_div(high, 0, low, d, 128),
        decreases j,
    {
        let i = j - 1;
        remainder = (remainder << 1) | ((low >> i) & 1);
        if remainder >= d {
            remainder -= d;
            quotient |= 1 << i;
        }
        j = i;
    }
    proof {
        let p = a * b;
        lemma_fundamental_div_mod(p, two128());
        // The quotient does not fit in 128 bits exactly when high >= d.
        assert(p / (d as int) <= u128::MAX) by {
            assert(p < two128() * d) by (nonlinear_arith)
                requires p == two128() * (p / two128()) + p % two128(), p % two128() < two128(),
                    p / two128() < d, p / two128() >= 0;
            vstd::arithmetic::div_mod::lemma_div_by_multiple_is_strongly_ordered(p, two128() * d, two128(), d as int);
            vstd::arithmetic::div_mod::lemma_div_by_multiple(two128(), d as int);
        }
        if d as int * 2 <= two128() {
            lemma_pow2_128();
            lemma_long_div(high, 0, low, d, 128, 0);
            assert(low as int % two128() == low as int);
            assert((0 * d + high) * two128() + low == p) by (nonlinear_arith)
                requires p == two128() * high + low;
        }
    }
    (quotient, false)
}


/// Absolute value of an integer.
pub open spec fn spec_abs(x: int) -> int {
    if x < 0 {
        -x
    } else {
        x
    }
}

/// The quotient `a * b / d` rounded toward zero, or `None` when `d` is zero
/// or the quotient does not fit in an `i128`.
pub open spec fn spec_mul_div(a: int, b: int, d: int) -> Option<i128> {
    if d == 0 {
        None
    } else {
        let q = (spec_abs(a) * spec_abs(b)) / spec_abs(d);
        if q > i128::MAX {
            None
        } else if ((a < 0) != (b < 0)) != (d < 0) {
            Some((-q) as i128)
        } else {
            Some(q as i128)
        }
    }
}

/// Signed `a * b / d`, rounded toward zero, computed without intermediate
/// overflow; `None` when `d` is zero or the quotient does not fit.
pub fn mul_div(a: i128, b: i128, d: i128) -> (r: Option<i128>)
    requires
        d != 0 ==> a != i128::MIN && b != i128::MIN && d != i128::MIN,
    ensures
        r == spec_mul_div(a as int, b as int, d as int),
{
    if d == 0 {
        return None;
    }
    let a_abs = (if a < 0 { -a } else { a }) as u128;
    let b_abs = (if b < 0 { -b } else { b }) as u128;
    let d_abs = (if d < 0 { -d } else { d }) as u128;
    assert(d_abs as int * 2 <= two128());
    let (res_abs, overflow) = mul_div_u128(a_abs, b_abs, d_abs);
    if overflow || res_abs > (i128::MAX as u128) {
        return None;
    }
    let res = res_abs as i128;
    if (a < 0) ^ (b < 0) ^ (d < 0) {
        Some(-res)
    } else {
        Some(res)
    }
}

}
