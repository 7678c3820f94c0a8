//! From decimal text to floating-point numbers.

use crate::digits::{
    compare, digits_of, is_digits, lemma_number_bounds, lemma_positive, lemma_ten_to_adds,
    lemma_ten_to_ordered, number, ten_to, times_plus,
};
use crate::float_model::{
    lemma_nearest_is, lemma_nearest_of_units, lemma_parts, Format,
};
use crate::float_rounding::{lemma_round_to_infinity, two_to};
use vstd::arithmetic::power2::{
    lemma2_to64, lemma2_to64_rest, lemma_pow2_adds, lemma_pow2_pos, lemma_pow2_unfold, pow2,
};
use vstd::prelude::*;

verus! {

/// The pattern nearest to `m` times ten to the `x`.
pub open spec fn nearest_decimal(m: nat, x: int) -> nat {
    let f = Format::Single;
    if x >= 0 {
        f.nearest(m * ten_to(x as nat) * pow2(f.scale()), 1)
    } else {
        f.nearest(m * pow2(f.scale()), ten_to((-x) as nat))
    }
}

/// A number in decimal digits times a power of ten.
fn times_ten_to(ds: &Vec<u64>, e: u128) -> (r: Vec<u64>)
    requires
        is_digits(ds@),
    ensures
        is_digits(r@),
        number(r@) == number(ds@) * ten_to(e as nat),
{
    let mut r: Vec<u64> = times_plus(ds, 1, 0);
    let mut i: u128 = 0;
    assert(number(ds@) * 1 == number(ds@));
    while i < e
        invariant
            i <= e,
            is_digits(r@),
            number(r@) == number(ds@) * ten_to(i as nat),
        decreases e - i,
    {
        proof {
            let n: nat = number(ds@);
            let t: nat = ten_to(i as nat);
            assert((n * t) * 10 == n * (10 * t)) by (nonlinear_arith);
        }
        r = times_plus(&r, 10, 0);
        i = i + 1;
    }
    r
}

/// A number in decimal digits times a power of two.
fn times_two_to(ds: &Vec<u64>, e: u32) -> (r: Vec<u64>)
    requires
        is_digits(ds@),
    ensures
        is_digits(r@),
        number(r@) == number(ds@) * pow2(e as nat),
{
    let mut r: Vec<u64> = times_plus(ds, 1, 0);
    let mut i: u32 = 0;
    proof {
        lemma2_to64();
        assert(number(ds@) * 1 == number(ds@));
    }
    while i < e
        invariant
            i <= e,
            is_digits(r@),
            number(r@) == number(ds@) * pow2(i as nat),
        decreases e - i,
    {
        let step: u32 = if e - i < 31 {
            e - i
        } else {
            31
        };
        let factor: u128 = two_to(step);
        proof {
            lemma2_to64();
            lemma_pow2_pos(step as nat);
            crate::float_rounding::lemma_pow2_ordered(step as nat, 31);
            lemma_pow2_adds(i as nat, step as nat);
            let n: nat = number(ds@);
            let t: nat = pow2(i as nat);
            let g: nat = pow2(step as nat);
            assert((n * t) * g == n * (t * g)) by (nonlinear_arith);
        }
        r = times_plus(&r, factor as u64, 0);
        i = i + step;
    }
    r
}

/// Whether the nearest pattern to the fraction `n / d` units is above `k`.
spec fn is_above(n: nat, d: nat, k: nat) -> bool {
    let f = Format::Single;
    let sum = (f.units(k) + f.units(k + 1)) * d;
    2 * n > sum || (2 * n == sum && k % 2 == 1)
}

/// Whether the nearest pattern to the fraction `n / d` units is above `k`, given two times `n`.
fn above(twice: &Vec<u64>, d: &Vec<u64>, k: u64, Ghost(n): Ghost<nat>) -> (r: bool)
    requires
        is_digits(twice@),
        is_digits(d@),
        number(twice@) == 2 * n,
        k < Format::Single.infinity(),
    ensures
        r == is_above(n, number(d@), k as nat),
{
    let f: Format = Format::Single;
    let (t, q) = f.split(k);
    let scaled: Vec<u64> = times_plus(d, 2 * q + 1, 0);
    let sum: Vec<u64> = times_two_to(&scaled, t);
    proof {
        lemma_parts(f, k as nat);
        let p: nat = pow2(t as nat);
        let x: nat = number(d@);
        let s: nat = q as nat;
        assert((x * (2 * s + 1)) * p == (s * p + (s + 1) * p) * x) by (nonlinear_arith);
    }
    let (less, equal) = compare(&sum, twice);
    less || (equal && k % 2 == 1)
}

/// The pattern nearest to the fraction `n / d` units, by halving the range of patterns.
fn search(twice: &Vec<u64>, d: &Vec<u64>, Ghost(n): Ghost<nat>) -> (k: u64)
    requires
        is_digits(twice@),
        is_digits(d@),
        number(twice@) == 2 * n,
        number(d@) > 0,
    ensures
        k == Format::Single.nearest(n, number(d@)),
        k <= Format::Single.infinity(),
{
    let infinity: u64 = Format::Single.infinity_bits();
    let mut lo: u64 = 0;
    let mut hi: u64 = infinity;
    while lo < hi
        invariant
            lo <= hi <= infinity,
            infinity == Format::Single.infinity(),
            is_digits(twice@),
            is_digits(d@),
            number(twice@) == 2 * n,
            lo > 0 ==> is_above(n, number(d@), (lo - 1) as nat),
            hi < infinity ==> !is_above(n, number(d@), hi as nat),
        decreases hi - lo,
    {
        let mid: u64 = lo + (hi - lo) / 2;
        if above(twice, d, mid, Ghost(n)) {
            lo = mid + 1;
        } else {
            hi = mid;
        }
    }
    proof {
        assert(Format::Single.is_nearest(n, number(d@), lo as nat));
        lemma_nearest_is(Format::Single, n, number(d@), lo as nat);
    }
    lo
}

/// Some powers of ten and two next to each other.
proof fn lemma_powers()
    ensures
        ten_to(39) > pow2(128),
        ten_to(46) > pow2(150),
        Format::Single.units(Format::Single.infinity()) == pow2(128) * pow2(149),
{
    reveal_with_fuel(ten_to, 14);
    lemma2_to64();
    lemma2_to64_rest();
    lemma_ten_to_adds(13, 13);
    lemma_ten_to_adds(26, 13);
    assert(ten_to(13) == 10_000_000_000_000);
    assert(ten_to(26) == 10_000_000_000_000 * 10_000_000_000_000);
    assert(ten_to(39) == ten_to(26) * 10_000_000_000_000);
    lemma_pow2_adds(64, 64);
    lemma_ten_to_adds(39, 7);
    assert(ten_to(7) == 10_000_000);
    lemma_pow2_adds(128, 22);
    assert(pow2(22) == 0x40_0000);
    assert(ten_to(39) * 10_000_000 > pow2(128) * 0x40_0000) by (nonlinear_arith)
        requires
            ten_to(39) > pow2(128),
    ;
    let f: Format = Format::Single;
    assert(f.infinity() / f.hidden() == 255 && f.infinity() % f.hidden() == 0);
    lemma_pow2_adds(23, 254);
    lemma_pow2_adds(128, 149);
}

/// Zero is zero times any power of ten.
pub proof fn lemma_decimal_zero(x: int)
    ensures
        nearest_decimal(0, x) == 0,
{
    let f: Format = Format::Single;
    let one: nat = pow2(149);
    assert(0 * one == 0);
    if x < 0 {
        lemma_ten_to_ordered(0, (-x) as nat);
        let d: nat = ten_to((-x) as nat);
        lemma_nearest_of_units(f, d, 0);
        assert(0 * d == 0);
    } else {
        let t: nat = ten_to(x as nat);
        lemma_nearest_of_units(f, 1, 0);
        assert(0 * t * one == 0) by (nonlinear_arith);
    }
}

/// A number of at least ten to the 39 is past the greatest finite one.
pub proof fn lemma_decimal_huge(m: nat, x: int)
    requires
        m > 0,
        x >= 39,
    ensures
        nearest_decimal(m, x) == Format::Single.infinity(),
{
    let f: Format = Format::Single;
    let one: nat = pow2(149);
    let t: nat = ten_to(x as nat);
    lemma_powers();
    lemma_ten_to_ordered(39, x as nat);
    assert(m * t * one >= pow2(128) * one * 1) by (nonlinear_arith)
        requires
            m >= 1,
            t >= pow2(128),
    ;
    lemma_round_to_infinity(f, m * t * one, 1, f.infinity());
    lemma_nearest_is(f, m * t * one, 1, f.infinity());
}

/// A number below ten to the minus 46 is nearest to zero.
pub proof fn lemma_decimal_tiny(m: nat, l: nat, x: int)
    requires
        m < ten_to(l),
        l + x <= -46,
    ensures
        nearest_decimal(m, x) == 0,
{
    let f: Format = Format::Single;
    let one: nat = pow2(149);
    let e: nat = (-x) as nat;
    lemma_powers();
    lemma_pow2_pos(149);
    lemma_ten_to_ordered(l, (e - 46) as nat);
    lemma_ten_to_adds((e - 46) as nat, 46);
    lemma_pow2_unfold(150);
    let low: nat = ten_to((e - 46) as nat);
    let d: nat = ten_to(e);
    assert(2 * (m * one) < d) by (nonlinear_arith)
        requires
            m < low,
            d == low * ten_to(46),
            ten_to(46) > 2 * one,
            low > 0,
    ;
    assert((0 + 1) * d == d) by (nonlinear_arith);
    assert(f.is_nearest(m * one, d, 0));
    lemma_nearest_is(f, m * one, d, 0);
}

/// The pattern nearest to a number in decimal digits times ten to the `x`.
pub fn from_decimal(ds: &Vec<u64>, x: i128) -> (k: u64)
    requires
        is_digits(ds@),
        -0x100_0000_0000_0000_0000_0000 < x < 0x100_0000_0000_0000_0000_0000,
    ensures
        k == nearest_decimal(number(ds@), x as int),
        k <= Format::Single.infinity(),
{
    let f: Format = Format::Single;
    let ghost m: nat = number(ds@);
    let ghost one: nat = pow2(149);
    proof {
        lemma_number_bounds(ds@);
    }
    if ds.len() == 1 && ds[0] == 0 {
        proof {
            assert(crate::digits::high_digits(ds@, 1) == 0);
            lemma_decimal_zero(x as int);
        }
        return 0;
    }
    proof {
        lemma_positive(ds@);
    }
    if x >= 39 {
        proof {
            lemma_decimal_huge(m, x as int);
        }
        return f.infinity_bits();
    }
    if (ds.len() as i128) + x <= -46 {
        proof {
            lemma_decimal_tiny(m, ds@.len(), x as int);
        }
        return 0;
    }
    proof {
        lemma_pow2_unfold(150);
    }
    let unit: Vec<u64> = digits_of(1);
    if x >= 0 {
        let shifted: Vec<u64> = times_ten_to(ds, x as u128);
        let twice: Vec<u64> = times_two_to(&shifted, 150);
        proof {
            let t: nat = ten_to(x as nat);
            assert((m * t) * (2 * one) == 2 * (m * t * one)) by (nonlinear_arith);
        }
        search(&twice, &unit, Ghost(m * ten_to(x as nat) * one))
    } else {
        let twice: Vec<u64> = times_two_to(ds, 150);
        let d: Vec<u64> = times_ten_to(&unit, (-x) as u128);
        proof {
            lemma_ten_to_ordered(0, (-x) as nat);
            assert(m * (2 * one) == 2 * (m * one)) by (nonlinear_arith);
            assert(1 * ten_to((-x) as nat) == ten_to((-x) as nat));
        }
        search(&twice, &d, Ghost(m * one))
    }
}

} // verus!
