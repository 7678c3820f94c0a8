//! How close the rounded arithmetic on positions comes to exact arithmetic.

use crate::float_model::{
    lemma_nearest_exists, lemma_nearest_of_units, lemma_nearest_ordered, lemma_parts,
    lemma_units_increase, lemma_units_of_parts, Format,
};
use crate::float_rounding::lemma_pow2_ordered;
use crate::time::Duration;
use vstd::arithmetic::power2::{
    lemma2_to64, lemma2_to64_rest, lemma_pow2_adds, lemma_pow2_unfold, pow2,
};
use vstd::prelude::*;

verus! {

/// How far two numbers are apart.
pub open spec fn distance(a: nat, b: nat) -> nat {
    if a >= b {
        (a - b) as nat
    } else {
        (b - a) as nat
    }
}

/// Numbers that are multiplied are apart by as much more.
pub proof fn lemma_distance_scaled(a: nat, b: nat, c: nat)
    ensures
        distance(a * c, b * c) == distance(a, b) * c,
{
    assert(distance(a * c, b * c) == distance(a, b) * c) by (nonlinear_arith);
}

/// Rounding changes a number by at most half the last place of the result, which is one unit or
/// one part in `hidden` of the result.
pub proof fn law_rounding_error(f: Format, n: nat, d: nat)
    requires
        d > 0,
        f.nearest(n, d) < f.infinity(),
    ensures
        2 * f.hidden() * distance(n, f.units(f.nearest(n, d)) * d) <= (f.units(
            f.nearest(n, d),
        ) + f.hidden()) * d,
{
    lemma_nearest_exists(f, n, d);
    let h: nat = f.hidden();
    let k: nat = f.nearest(n, d);
    let u: nat = f.units(k);
    lemma_last_place(f, k);
    let above: nat = (f.units(k + 1) - u) as nat;
    assert(2 * n <= (u + f.units(k + 1)) * d);
    assert(2 * h * n <= 2 * h * (u * d) + (u + h) * d) by (nonlinear_arith)
        requires
            2 * n <= (u + (u + above)) * d,
            h * above <= u + h,
    ;
    if k > 0 {
        lemma_last_place(f, (k - 1) as nat);
        lemma_units_increase(f, (k - 1) as nat, k);
        let v: nat = f.units((k - 1) as nat);
        let below: nat = (u - v) as nat;
        assert(2 * n >= (v + u) * d);
        assert(2 * h * n + (u + h) * d >= 2 * h * (u * d)) by (nonlinear_arith)
            requires
                2 * n >= (v + u) * d,
                u == v + below,
                h * below <= v + h,
        ;
    } else {
        assert(2 * h * n + (u + h) * d >= 2 * h * (u * d)) by (nonlinear_arith)
            requires
                u == 0,
        ;
    }
    let e: nat = distance(n, u * d);
    if n >= u * d {
        assert(2 * h * e == 2 * h * n - 2 * h * (u * d)) by (nonlinear_arith)
            requires
                e == n - u * d,
        ;
    } else {
        assert(2 * h * e == 2 * h * (u * d) - 2 * h * n) by (nonlinear_arith)
            requires
                e == u * d - n,
        ;
    }
}

/// The last place of a number is one unit or one part in `hidden` of it.
pub proof fn lemma_last_place(f: Format, k: nat)
    ensures
        f.units(k) < f.units(k + 1),
        f.hidden() * (f.units(k + 1) - f.units(k)) <= f.units(k) + f.hidden(),
{
    lemma_parts(f, k);
    let t: nat = crate::float_model::exponent_part(f, k);
    let q: nat = crate::float_model::significand_part(f, k);
    let p: nat = pow2(t);
    let h: nat = f.hidden();
    lemma2_to64();
    assert((q + 1) * p - q * p == p) by (nonlinear_arith);
    if t > 0 {
        assert(h * p <= q * p) by (nonlinear_arith)
            requires
                h <= q,
        ;
    }
}

/// A whole number that fits the significand is a number of the format, and so are its multiples
/// by a power of two.
pub proof fn lemma_exact(f: Format, m: nat, t: nat) -> (k: nat)
    requires
        m < 2 * f.hidden(),
        t <= f.scale() + 64,
    ensures
        f.units(k) == m * pow2(t),
        k < f.infinity(),
    decreases t,
{
    let h: nat = f.hidden();
    if t == 0 || h <= m {
        lemma_units_of_parts(f, t, m);
        let k: nat = t * h + m;
        assert(t * h <= (f.scale() + 64) * h) by (nonlinear_arith)
            requires
                t <= f.scale() + 64,
        ;
        k
    } else {
        lemma_pow2_unfold(t);
        let half: nat = pow2((t - 1) as nat);
        assert((2 * m) * half == m * (2 * half)) by (nonlinear_arith);
        lemma_exact(f, 2 * m, (t - 1) as nat)
    }
}

/// A whole number that fits the significand is converted exactly.
pub proof fn law_whole_numbers_are_exact(f: Format, m: nat)
    requires
        m < 2 * f.hidden(),
    ensures
        f.units(f.whole(m)) == m * pow2(f.scale()),
        f.whole(m) < f.infinity(),
{
    let k: nat = lemma_exact(f, m, f.scale());
    lemma_nearest_of_units(f, 1, k);
    assert(f.units(k) * 1 == m * pow2(f.scale()));
}

/// A fraction of units that is at most some number of the format rounds to at most that number.
pub proof fn lemma_rounds_below(f: Format, n: nat, d: nat, k: nat)
    requires
        d > 0,
        k <= f.infinity(),
        n <= f.units(k) * d,
    ensures
        f.nearest(n, d) <= k,
        f.units(f.nearest(n, d)) <= f.units(k),
{
    lemma_nearest_exists(f, n, d);
    lemma_nearest_of_units(f, 1, k);
    lemma_nearest_ordered(f, n, d, f.nearest(n, d), f.units(k) * 1, 1, k);
    if f.nearest(n, d) < k {
        lemma_units_increase(f, f.nearest(n, d), k);
    }
}

/// A fraction of units that is at least some number of the format rounds to at least that number.
pub proof fn lemma_rounds_above(f: Format, n: nat, d: nat, k: nat)
    requires
        d > 0,
        k <= f.infinity(),
        n >= f.units(k) * d,
    ensures
        f.nearest(n, d) >= k,
        f.units(f.nearest(n, d)) >= f.units(k),
{
    lemma_nearest_exists(f, n, d);
    lemma_nearest_of_units(f, 1, k);
    lemma_nearest_ordered(f, f.units(k) * 1, 1, k, n, d, f.nearest(n, d));
    if f.nearest(n, d) > k {
        lemma_units_increase(f, k, f.nearest(n, d));
    }
}

/// Two to the number of fraction bits of the wide format.
pub open spec fn parts() -> nat {
    0x10_0000_0000_0000
}

/// A number times [`parts`].
pub open spec fn in_parts(x: nat) -> nat {
    0x10_0000_0000_0000 * x
}

/// What rounding changes in the wide format.
pub proof fn lemma_double_error(n: nat, d: nat)
    requires
        d > 0,
        Format::Double.nearest(n, d) < Format::Double.infinity(),
    ensures
        ({
            let u = Format::Double.units(Format::Double.nearest(n, d));
            2 * in_parts(distance(n, u * d)) <= u * d + in_parts(d)
        }),
{
    law_rounding_error(Format::Double, n, d);
    let u: nat = Format::Double.units(Format::Double.nearest(n, d));
    let e: nat = distance(n, u * d);
    let h: nat = Format::Double.hidden();
    assert(2 * (0x10_0000_0000_0000 * e) <= u * d + 0x10_0000_0000_0000 * d) by (nonlinear_arith)
        requires
            2 * h * e <= (u + h) * d,
            h == 0x10_0000_0000_0000,
    ;
}

/// A second in units of the wide format.
pub open spec fn second() -> nat {
    pow2(1074)
}

/// A second is very many units.
pub proof fn lemma_second()
    ensures
        second() == pow2(Format::Double.scale()),
        second() >= 0x1_0000_0000_0000_0000_0000_0000_0000,
{
    lemma2_to64();
    lemma2_to64_rest();
    lemma_pow2_adds(64, 48);
    lemma_pow2_ordered(112, 1074);
}

/// The patterns of the parts that [`Duration::seconds`] puts together: whole seconds and the
/// fraction of a second.
pub proof fn lemma_seconds_parts(d: Duration)
    requires
        d.wf(),
    ensures
        ({
            let f = Format::Double;
            let one = second();
            let s = f.whole(d.secs as nat);
            let q = f.quotient(f.whole(d.nanos as nat) as u64, f.whole(1_000_000_000) as u64);
            &&& s < f.infinity()
            &&& f.units(s) <= pow2(64) * one
            &&& 2 * in_parts(distance((d.secs * one) as nat, f.units(s))) <= f.units(s) + parts()
            &&& q < f.infinity()
            &&& f.units(q) <= one
            &&& 2 * in_parts(distance((d.nanos * one) as nat, f.units(q) * 1_000_000_000))
                <= 1_000_000_000 * (f.units(q) + parts())
        }),
{
    let f: Format = Format::Double;
    let one: nat = second();
    lemma_second();
    lemma2_to64();
    // whole seconds
    let top: nat = lemma_exact(f, 1, 1074 + 64);
    lemma_pow2_adds(64, 1074);
    assert(d.secs * one <= pow2(64) * one) by (nonlinear_arith)
        requires
            d.secs <= pow2(64),
    ;
    let s: nat = f.whole(d.secs as nat);
    assert(d.secs as nat * one == d.secs * one);
    lemma_rounds_below(f, (d.secs * one) as nat, 1, top);
    lemma_double_error((d.secs * one) as nat, 1);
    assert(f.units(s) * 1 == f.units(s));
    // the fraction
    law_whole_numbers_are_exact(f, d.nanos as nat);
    law_whole_numbers_are_exact(f, 1_000_000_000);
    let nanos: nat = f.whole(d.nanos as nat);
    let billion: nat = f.whole(1_000_000_000);
    let un: nat = f.units(nanos);
    let ub: nat = f.units(billion);
    let x: nat = (d.nanos * one) as nat;
    assert(un == x);
    assert(ub == 1_000_000_000 * one);
    let q: nat = f.nearest(un * one, ub);
    assert(f.quotient(nanos as u64, billion as u64) == q) by {
        if billion == 0 {
            assert(f.units(billion) == 0);
        }
    }
    let unit: nat = lemma_exact(f, 1, 1074);
    assert(x <= 1_000_000_000 * one) by (nonlinear_arith)
        requires
            x == d.nanos * one,
            d.nanos <= 1_000_000_000,
    ;
    assert(un * one <= f.units(unit) * ub) by (nonlinear_arith)
        requires
            un <= 1_000_000_000 * one,
            f.units(unit) == one,
            ub == 1_000_000_000 * one,
    ;
    lemma_rounds_below(f, un * one, ub, unit);
    lemma_double_error(un * one, ub);
    let uq: nat = f.units(q);
    let e: nat = distance(x, uq * 1_000_000_000);
    lemma_distance_scaled(x, uq * 1_000_000_000, one);
    assert((uq * 1_000_000_000) * one == uq * ub) by (nonlinear_arith)
        requires
            ub == 1_000_000_000 * one,
    ;
    assert(2 * (0x10_0000_0000_0000 * e) <= 1_000_000_000 * (uq + 0x10_0000_0000_0000))
        by (nonlinear_arith)
        requires
            2 * (0x10_0000_0000_0000 * (e * one)) <= uq * ub + 0x10_0000_0000_0000 * ub,
            ub == 1_000_000_000 * one,
            one > 0,
    ;
}

/// Adds up what rounding changes in whole seconds, in the fraction, and in their sum.
proof fn lemma_seconds_errors(a: nat, b: nat, us: nat, uq: nat, u: nat)
    requires
        2 * in_parts(distance(a, us)) <= us + parts(),
        2 * in_parts(distance(b, uq * 1_000_000_000)) <= 1_000_000_000 * (uq + parts()),
        2 * in_parts(distance(us + uq, u)) <= u + parts(),
    ensures
        2 * in_parts(distance(1_000_000_000 * a + b, u * 1_000_000_000)) <= 1_000_000_000 * (3 * u
            + 4 * parts()),
{
    assert(us + uq <= 2 * u + 1);
    assert(distance(1_000_000_000 * a + b, u * 1_000_000_000) <= 1_000_000_000 * distance(a, us)
        + distance(b, uq * 1_000_000_000) + 1_000_000_000 * distance(us + uq, u));
}

/// The number of seconds that a span is taken for is the span, to within three halves of a part
/// and a few units.
pub proof fn lemma_seconds_close(d: Duration)
    requires
        d.wf(),
    ensures
        d.seconds() < Format::Double.infinity(),
        2 * in_parts(
            distance(
                d.total() * second(),
                Format::Double.units(d.seconds() as nat) * 1_000_000_000,
            ),
        ) <= 1_000_000_000 * (3 * Format::Double.units(d.seconds() as nat) + 4 * parts()),
        d.total() == 0 ==> d.seconds() == 0,
{
    let f: Format = Format::Double;
    let one: nat = second();
    lemma_second();
    lemma_seconds_parts(d);
    let s: nat = f.whole(d.secs as nat);
    let q: nat = f.quotient(f.whole(d.nanos as nat) as u64, f.whole(1_000_000_000) as u64);
    let us: nat = f.units(s);
    let uq: nat = f.units(q);
    let a: nat = (d.secs * one) as nat;
    let b: nat = (d.nanos * one) as nat;
    assert(d.total() * one == 1_000_000_000 * a + b) by (nonlinear_arith)
        requires
            d.total() == d.secs * 1_000_000_000 + d.nanos,
            a == d.secs * one,
            b == d.nanos * one,
    ;
    let sum: nat = us + uq;
    let u: nat = f.units(d.seconds() as nat);
    lemma_sum_of_numbers(s as u64, q as u64);
    lemma_seconds_errors(a, b, us, uq, u);
    if d.total() == 0 {
        assert(a == 0 && b == 0) by (nonlinear_arith)
            requires
                1_000_000_000 * a + b == 0 * one,
        ;
        assert(us == 0 && uq == 0);
    }
}

/// The sum of two numbers that are not too great.
pub proof fn lemma_sum_of_numbers(a: u64, b: u64)
    requires
        a < Format::Double.infinity(),
        b < Format::Double.infinity(),
        Format::Double.units(a as nat) <= pow2(64) * second(),
        Format::Double.units(b as nat) <= second(),
    ensures
        ({
            let f = Format::Double;
            let sum = f.units(a as nat) + f.units(b as nat);
            let k = f.sum(a, b);
            &&& k < f.infinity()
            &&& k == f.nearest(sum, 1)
            &&& 2 * in_parts(distance(sum, f.units(k))) <= f.units(k) + parts()
            &&& sum == 0 ==> k == 0
        }),
{
    let f: Format = Format::Double;
    let one: nat = second();
    let sum: nat = f.units(a as nat) + f.units(b as nat);
    lemma_second();
    let top: nat = lemma_exact(f, 2, 1074 + 64);
    lemma_pow2_adds(64, 1074);
    lemma2_to64();
    assert(one <= pow2(64) * one) by (nonlinear_arith)
        requires
            pow2(64) >= 1,
    ;
    lemma_rounds_below(f, sum, 1, top);
    lemma_double_error(sum, 1);
    assert(f.units(f.nearest(sum, 1)) * 1 == f.units(f.nearest(sum, 1)));
    if sum == 0 {
        assert(f.units(0) == 0);
        lemma_nearest_of_units(f, 1, 0);
    }
}

} // verus!
