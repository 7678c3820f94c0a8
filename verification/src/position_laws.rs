//! The order of lengths and positions, and where a change of tempo leads.

use crate::accuracy::{
    distance, law_whole_numbers_are_exact, lemma_exact, lemma_rounds_above, lemma_rounds_below,
    lemma_second, lemma_seconds_close, lemma_seconds_parts, lemma_sum_of_numbers, second,
};
use crate::controller::ONE;
use crate::float_model::{
    half_even, lemma_nearest_exists, lemma_nearest_is, lemma_nearest_of_units,
    lemma_nearest_ordered, lemma_parts, lemma_units_increase, Format,
};
use crate::input::moved_by_tempo;
use crate::tempo_laws::{is_tempo, lemma_half_even_close, lemma_span_is_finite};
use crate::time::{nanos_of_seconds, Duration};
use vstd::arithmetic::power2::{
    lemma2_to64, lemma2_to64_rest, lemma_pow2_adds, lemma_pow2_pos, pow2,
};
use vstd::prelude::*;

verus! {

/// Rounding to whole numbers keeps the order.
proof fn lemma_half_even_ordered(n1: nat, n2: nat, d: nat)
    requires
        d > 0,
        n1 <= n2,
    ensures
        half_even(n1, d) <= half_even(n2, d),
{
    vstd::arithmetic::div_mod::lemma_fundamental_div_mod(n1 as int, d as int);
    vstd::arithmetic::div_mod::lemma_fundamental_div_mod(n2 as int, d as int);
    let q1: nat = n1 / d;
    let q2: nat = n2 / d;
    if q1 > q2 {
        assert(d * q1 >= d * q2 + d) by (nonlinear_arith)
            requires
                q1 >= q2 + 1,
        ;
    } else if q1 < q2 {
    } else {
        assert(d * q1 == d * q2);
    }
}

/// A number that is less than half away from a whole number rounds to it.
pub proof fn lemma_half_even_is(n: nat, d: nat, m: nat)
    requires
        d > 0,
        2 * distance(m * d, n) < d,
    ensures
        half_even(n, d) == m,
{
    lemma_half_even_close(n, d);
    let k: nat = half_even(n, d);
    if k < m {
        assert(m * d >= k * d + d) by (nonlinear_arith)
            requires
                m >= k + 1,
        ;
    } else if k > m {
        assert(k * d >= m * d + d) by (nonlinear_arith)
            requires
                k >= m + 1,
        ;
    }
}

/// More seconds are a longer span.
pub proof fn lemma_nanos_ordered(j: u64, k: u64)
    requires
        j <= k <= Format::Double.infinity(),
        nanos_of_seconds(k) is Some,
    ensures
        nanos_of_seconds(j) is Some,
        nanos_of_seconds(j)->0 <= nanos_of_seconds(k)->0,
{
    let f: Format = Format::Double;
    if j < k {
        lemma_units_increase(f, j as nat, k as nat);
    }
    lemma_pow2_pos(1074);
    lemma_half_even_ordered(
        f.units(j as nat) * 1_000_000_000,
        f.units(k as nat) * 1_000_000_000,
        pow2(1074),
    );
}

/// The product of finite non-negative numbers.
pub proof fn lemma_product_is(a: u64, b: u64)
    requires
        a < Format::Double.infinity(),
        b < Format::Double.infinity(),
    ensures
        Format::Double.product(a, b) == Format::Double.nearest(
            Format::Double.units(a as nat) * Format::Double.units(b as nat),
            second(),
        ),
        Format::Double.product(a, b) <= Format::Double.infinity(),
        second() > 0,
{
    let f: Format = Format::Double;
    lemma_second();
    lemma_nearest_exists(f, f.units(a as nat) * f.units(b as nat), second());
}

/// The quotient of a finite non-negative number by a positive one.
pub proof fn lemma_quotient_is(a: u64, b: u64)
    requires
        a < Format::Double.infinity(),
        is_tempo(b),
    ensures
        Format::Double.quotient(a, b) == Format::Double.nearest(
            Format::Double.units(a as nat) * second(),
            Format::Double.units(b as nat),
        ),
        Format::Double.quotient(a, b) <= Format::Double.infinity(),
        Format::Double.units(b as nat) > 0,
{
    let f: Format = Format::Double;
    lemma_second();
    lemma_units_increase(f, 0, b as nat);
    lemma_nearest_exists(f, f.units(a as nat) * second(), f.units(b as nat));
}

/// Where the whole seconds of a span are not exact any more, its nanoseconds are lost.
proof fn lemma_coarse_seconds(d: Duration)
    requires
        d.wf(),
        d.secs >= 0x20_0000_0000_0000,
    ensures
        d.seconds() == Format::Double.whole(d.secs as nat),
{
    let f: Format = Format::Double;
    let one: nat = second();
    lemma_second();
    lemma_seconds_parts(d);
    let s: nat = f.whole(d.secs as nat);
    let q: nat = f.quotient(f.whole(d.nanos as nat) as u64, f.whole(1_000_000_000) as u64);
    let us: nat = f.units(s);
    let uq: nat = f.units(q);
    lemma_sum_of_numbers(s as u64, q as u64);
    // the whole seconds are a multiple of a power of two that is at least two
    let k: nat = lemma_exact(f, 0x10_0000_0000_0000, 1075);
    lemma_pow2_adds(1, 1074);
    lemma2_to64();
    assert(0x10_0000_0000_0000 * pow2(1075) == 0x20_0000_0000_0000 * one) by (nonlinear_arith)
        requires
            pow2(1075) == 2 * one,
    ;
    assert(d.secs * one >= 0x20_0000_0000_0000 * one) by (nonlinear_arith)
        requires
            d.secs >= 0x20_0000_0000_0000,
    ;
    lemma_rounds_above(f, (d.secs * one) as nat, 1, k);
    lemma_parts(f, s);
    let t: nat = crate::float_model::exponent_part(f, s);
    let m: nat = crate::float_model::significand_part(f, s);
    if t < 1075 {
        crate::float_rounding::lemma_pow2_ordered(t, 1074);
        assert(m * pow2(t) < 0x20_0000_0000_0000 * one) by (nonlinear_arith)
            requires
                m < 0x20_0000_0000_0000,
                pow2(t) <= one,
                one > 0,
        ;
    }
    crate::float_rounding::lemma_pow2_ordered(1075, t);
    assert((m + 1) * pow2(t) - m * pow2(t) == pow2(t)) by (nonlinear_arith);
    // the fraction is less than a second
    assert(uq < one) by {
        let b: nat = (d.nanos * one) as nat;
        assert(b + one <= 1_000_000_000 * one) by (nonlinear_arith)
            requires
                b == d.nanos * one,
                d.nanos + 1 <= 1_000_000_000,
        ;
    }
    let sum: nat = us + uq;
    assert(f.is_nearest(sum, 1, s)) by {
        if s > 0 {
            lemma_units_increase(f, (s - 1) as nat, s);
            assert((f.units((s - 1) as nat) + us) * 1 == f.units((s - 1) as nat) + us);
        }
        assert((us + f.units(s + 1)) * 1 == us + f.units(s + 1));
    }
    lemma_nearest_is(f, sum, 1, s);
}

/// A longer span is no fewer seconds.
pub proof fn lemma_seconds_ordered(a: Duration, b: Duration)
    requires
        a.wf(),
        b.wf(),
        a.total() <= b.total(),
    ensures
        a.seconds() <= b.seconds() < Format::Double.infinity(),
{
    let f: Format = Format::Double;
    let one: nat = second();
    lemma_second();
    lemma_seconds_close(b);
    lemma_seconds_parts(a);
    lemma_seconds_parts(b);
    let sa: nat = f.whole(a.secs as nat);
    let sb: nat = f.whole(b.secs as nat);
    let billion: nat = f.whole(1_000_000_000);
    let qa: nat = f.quotient(f.whole(a.nanos as nat) as u64, billion as u64);
    let qb: nat = f.quotient(f.whole(b.nanos as nat) as u64, billion as u64);
    lemma_sum_of_numbers(sa as u64, qa as u64);
    lemma_sum_of_numbers(sb as u64, qb as u64);
    let na: nat = f.units(sa) + f.units(qa);
    let nb: nat = f.units(sb) + f.units(qb);
    lemma_nearest_exists(f, na, 1);
    lemma_nearest_exists(f, nb, 1);
    assert(a.secs <= b.secs);
    if a.secs == b.secs {
        law_whole_numbers_are_exact(f, a.nanos as nat);
        law_whole_numbers_are_exact(f, b.nanos as nat);
        law_whole_numbers_are_exact(f, 1_000_000_000);
        assert(billion > 0) by {
            if billion == 0 {
                assert(f.units(billion) == 0);
            }
        }
        lemma_quotient_is(f.whole(a.nanos as nat) as u64, billion as u64);
        lemma_quotient_is(f.whole(b.nanos as nat) as u64, billion as u64);
        let xa: nat = f.units(f.whole(a.nanos as nat)) * one;
        let xb: nat = f.units(f.whole(b.nanos as nat)) * one;
        let d: nat = f.units(billion);
        assert(xa * d <= xb * d) by (nonlinear_arith)
            requires
                xa == (a.nanos * one) * one,
                xb == (b.nanos * one) * one,
                a.nanos <= b.nanos,
        ;
        lemma_nearest_exists(f, xa, d);
        lemma_nearest_exists(f, xb, d);
        lemma_nearest_ordered(f, xa, d, qa, xb, d, qb);
        if qa < qb {
            lemma_units_increase(f, qa, qb);
        }
        lemma_nearest_ordered(f, na, 1, f.nearest(na, 1), nb, 1, f.nearest(nb, 1));
    } else if b.secs >= 0x20_0000_0000_0000 {
        lemma_coarse_seconds(b);
        assert(a.secs * one <= b.secs * one) by (nonlinear_arith)
            requires
                a.secs <= b.secs,
        ;
        if a.secs >= 0x20_0000_0000_0000 {
            lemma_coarse_seconds(a);
            lemma_nearest_exists(f, (a.secs * one) as nat, 1);
            lemma_nearest_exists(f, (b.secs * one) as nat, 1);
            lemma_nearest_ordered(
                f,
                (a.secs * one) as nat,
                1,
                sa,
                (b.secs * one) as nat,
                1,
                sb,
            );
        } else {
            law_whole_numbers_are_exact(f, a.secs as nat);
            let k: nat = lemma_exact(f, 0x10_0000_0000_0000, 1075);
            lemma_pow2_adds(1, 1074);
            lemma2_to64();
            assert(0x10_0000_0000_0000 * pow2(1075) == 0x20_0000_0000_0000 * one)
                by (nonlinear_arith)
                requires
                    pow2(1075) == 2 * one,
            ;
            assert(a.secs * one + one <= 0x20_0000_0000_0000 * one) by (nonlinear_arith)
                requires
                    a.secs + 1 <= 0x20_0000_0000_0000,
            ;
            assert(b.secs * one >= 0x20_0000_0000_0000 * one) by (nonlinear_arith)
                requires
                    b.secs >= 0x20_0000_0000_0000,
            ;
            lemma_rounds_below(f, na, 1, k);
            lemma_rounds_above(f, (b.secs * one) as nat, 1, k);
        }
    } else {
        law_whole_numbers_are_exact(f, a.secs as nat);
        law_whole_numbers_are_exact(f, b.secs as nat);
        assert(a.secs * one + one <= b.secs * one) by (nonlinear_arith)
            requires
                a.secs + 1 <= b.secs,
        ;
        lemma_nearest_ordered(f, na, 1, f.nearest(na, 1), nb, 1, f.nearest(nb, 1));
    }
}

/// A later position at tempo is no earlier position at real time.
pub proof fn law_later_stays_later(a: Duration, b: Duration, tempo: u64)
    requires
        a.wf(),
        b.wf(),
        a.total() <= b.total(),
        tempo < Format::Double.infinity(),
        b.times(tempo) is Some,
    ensures
        a.times(tempo) is Some,
        a.times(tempo)->0 <= b.times(tempo)->0,
{
    let f: Format = Format::Double;
    lemma_seconds_ordered(a, b);
    lemma_product_is(tempo, a.seconds());
    lemma_product_is(tempo, b.seconds());
    let ut: nat = f.units(tempo as nat);
    let ua: nat = f.units(a.seconds() as nat);
    let ub: nat = f.units(b.seconds() as nat);
    let one: nat = second();
    if a.seconds() < b.seconds() {
        lemma_units_increase(f, a.seconds() as nat, b.seconds() as nat);
    }
    assert((ut * ua) * one <= (ut * ub) * one) by (nonlinear_arith)
        requires
            ua <= ub,
    ;
    lemma_nearest_exists(f, ut * ua, one);
    lemma_nearest_exists(f, ut * ub, one);
    lemma_nearest_ordered(
        f,
        ut * ua,
        one,
        f.nearest(ut * ua, one),
        ut * ub,
        one,
        f.nearest(ut * ub, one),
    );
    lemma_nanos_ordered(
        f.product(tempo, a.seconds()) as u64,
        f.product(tempo, b.seconds()) as u64,
    );
}

/// A longer track is no shorter at tempo, and at a higher tempo a track is no longer.
pub proof fn law_faster_is_shorter(a: Duration, b: Duration, slow: u64, fast: u64)
    requires
        a.wf(),
        b.wf(),
        a.total() <= b.total(),
        is_tempo(slow),
        is_tempo(fast),
        slow <= fast,
        b.divided(slow) is Some,
    ensures
        a.divided(fast) is Some,
        a.divided(fast)->0 <= b.divided(slow)->0,
{
    let f: Format = Format::Double;
    lemma_seconds_ordered(a, b);
    lemma_quotient_is(a.seconds(), fast);
    lemma_quotient_is(b.seconds(), slow);
    let us: nat = f.units(slow as nat);
    let uf: nat = f.units(fast as nat);
    let one: nat = second();
    let ua: nat = f.units(a.seconds() as nat);
    let ub: nat = f.units(b.seconds() as nat);
    if a.seconds() < b.seconds() {
        lemma_units_increase(f, a.seconds() as nat, b.seconds() as nat);
    }
    if slow < fast {
        lemma_units_increase(f, slow as nat, fast as nat);
    }
    assert((ua * one) * us <= (ub * one) * uf) by (nonlinear_arith)
        requires
            ua <= ub,
            us <= uf,
    ;
    lemma_nearest_exists(f, ua * one, uf);
    lemma_nearest_exists(f, ub * one, us);
    lemma_nearest_ordered(
        f,
        ua * one,
        uf,
        f.nearest(ua * one, uf),
        ub * one,
        us,
        f.nearest(ub * one, us),
    );
    lemma_nanos_ordered(
        f.quotient(a.seconds(), fast) as u64,
        f.quotient(b.seconds(), slow) as u64,
    );
}

/// The last place of a number below two to the `j` is at most two to the `j - 53`.
pub proof fn lemma_last_place_below(k: nat, j: nat)
    requires
        Format::Double.units(k) < pow2(j),
        j >= 53,
    ensures
        Format::Double.units(k + 1) - Format::Double.units(k) <= pow2((j - 53) as nat),
{
    let f: Format = Format::Double;
    lemma_parts(f, k);
    let t: nat = crate::float_model::exponent_part(f, k);
    let q: nat = crate::float_model::significand_part(f, k);
    assert((q + 1) * pow2(t) - q * pow2(t) == pow2(t)) by (nonlinear_arith);
    if t > j - 53 {
        lemma2_to64();
        lemma2_to64_rest();
        lemma_pow2_adds(52, t);
        crate::float_rounding::lemma_pow2_ordered(j, 52 + t);
        assert(q * pow2(t) >= pow2(52) * pow2(t)) by (nonlinear_arith)
            requires
                q >= pow2(52),
        ;
    }
    crate::float_rounding::lemma_pow2_ordered(t, (j - 53) as nat);
}

/// Rounding a number of units up to two to the `j` changes it by at most half of two to the
/// `j - 53`.
proof fn lemma_error_below(n: nat, j: nat)
    requires
        n <= pow2(j),
        53 <= j <= 1138,
    ensures
        2 * distance(n, Format::Double.units(Format::Double.nearest(n, 1))) <= pow2(
            (j - 53) as nat,
        ),
{
    let f: Format = Format::Double;
    let top: nat = lemma_exact(f, 1, j);
    lemma_rounds_below(f, n, 1, top);
    lemma_nearest_exists(f, n, 1);
    let k: nat = f.nearest(n, 1);
    let u: nat = f.units(k);
    if k > 0 {
        let v: nat = f.units((k - 1) as nat);
        lemma_units_increase(f, (k - 1) as nat, k);
        lemma_last_place_below((k - 1) as nat, j);
        assert((v + u) * 1 == v + u);
    }
    if k < top {
        lemma_units_increase(f, k, top);
        lemma_last_place_below(k, j);
        assert((u + f.units(k + 1)) * 1 == u + f.units(k + 1));
    }
}

/// The number of seconds of a span of no more than ninety-seven days is less than half a
/// nanosecond off.
proof fn lemma_seconds_fine(d: Duration)
    requires
        d.wf(),
        d.secs < 0x80_0000 || (d.nanos == 0 && d.secs < 0x20_0000_0000_0000),
    ensures
        2 * distance(
            d.total() * second(),
            Format::Double.units(d.seconds() as nat) * 1_000_000_000,
        ) < second(),
        d.seconds() < Format::Double.infinity(),
{
    let f: Format = Format::Double;
    let one: nat = second();
    lemma_second();
    lemma_seconds_parts(d);
    let s: nat = f.whole(d.secs as nat);
    let q: nat = f.quotient(f.whole(d.nanos as nat) as u64, f.whole(1_000_000_000) as u64);
    let uq: nat = f.units(q);
    let a: nat = (d.secs * one) as nat;
    let b: nat = (d.nanos * one) as nat;
    assert(d.total() * one == 1_000_000_000 * a + b) by (nonlinear_arith)
        requires
            d.total() == d.secs * 1_000_000_000 + d.nanos,
            a == d.secs * one,
            b == d.nanos * one,
    ;
    law_whole_numbers_are_exact(f, d.secs as nat);
    lemma_sum_of_numbers(s as u64, q as u64);
    let sum: nat = a + uq;
    let u: nat = f.units(d.seconds() as nat);
    if d.nanos == 0 {
        assert(b == 0) by (nonlinear_arith)
            requires
                b == d.nanos * one,
                d.nanos == 0,
        ;
        assert(uq == 0);
        assert(f.units(s) * 1 == sum);
        lemma_nearest_of_units(f, 1, s);
        assert(d.seconds() == s);
    } else {
        lemma_pow2_adds(23, 1074);
        lemma_pow2_adds(30, 1044);
        lemma2_to64();
        let place: nat = pow2(1044);
        assert(a + one <= 0x80_0000 * one) by (nonlinear_arith)
            requires
                a == d.secs * one,
                d.secs + 1 <= 0x80_0000,
        ;
        lemma_error_below(sum, 1097);
        assert(one == 0x4000_0000 * place);
        assert(2 * distance(sum, u) <= place);
        assert(distance(1_000_000_000 * a + b, u * 1_000_000_000) <= 1_000_000_000 * distance(
            sum,
            u,
        ) + distance(b, uq * 1_000_000_000));
    }
}

/// Taken for seconds and back, a span of no more than ninety-seven days, or of whole seconds, is
/// the same span.
proof fn lemma_seconds_and_back(d: Duration)
    requires
        d.wf(),
        d.secs < 0x80_0000 || (d.nanos == 0 && d.secs < 0x20_0000_0000_0000),
    ensures
        d.seconds() < Format::Double.infinity(),
        nanos_of_seconds(d.seconds()) == Some(d.total()),
{
    let f: Format = Format::Double;
    let one: nat = second();
    lemma_second();
    lemma_seconds_fine(d);
    let u: nat = f.units(d.seconds() as nat);
    lemma_half_even_is(u * 1_000_000_000, one, d.total());
    lemma2_to64();
    assert(d.total() * one <= 0x100_0000_0000_0000 * (1_000_000_000 * one)) by (nonlinear_arith)
        requires
            d.total() <= 0x100_0000_0000_0000 * 1_000_000_000,
    ;
}

/// At the original tempo positions and lengths are what they are. (Past ninety-seven days there
/// are not enough bits for every nanosecond.)
pub proof fn law_original_tempo(d: Duration)
    requires
        d.wf(),
        d.secs < 0x80_0000 || (d.nanos == 0 && d.secs < 0x20_0000_0000_0000),
    ensures
        d.times(ONE) == Some(d.total()),
        d.divided(ONE) == Some(d.total()),
{
    let f: Format = Format::Double;
    lemma_seconds_and_back(d);
    let s: u64 = d.seconds();
    let u: nat = f.units(s as nat);
    let one: nat = second();
    lemma_product_is(ONE, s);
    lemma_quotient_is(s, ONE);
    lemma_one();
    lemma_nearest_of_units(f, one, s as nat);
    assert(one * u == u * one) by (nonlinear_arith);
}

/// The pattern of one stands for one.
pub proof fn lemma_one()
    ensures
        Format::Double.units(ONE as nat) == second(),
{
    crate::float_model::lemma_units_of_parts(Format::Double, 1022, 0x10_0000_0000_0000);
    lemma_pow2_adds(52, 1022);
    lemma2_to64_rest();
}

/// Raising the tempo moves the position at tempo backward.
pub proof fn law_faster_moves_backward(pos: Duration, from: u64, to: u64)
    requires
        pos.wf(),
        pos.secs < 0x80_0000 || (pos.nanos == 0 && pos.secs < 0x20_0000_0000_0000),
        is_tempo(from),
        is_tempo(to),
        from <= to,
    ensures
        moved_by_tempo(pos, from, to) is Some,
        moved_by_tempo(pos, from, to)->0 <= pos.total(),
{
    let f: Format = Format::Double;
    let one: nat = second();
    let uo: nat = f.units(from as nat);
    let un: nat = f.units(to as nat);
    if from < to {
        lemma_units_increase(f, from as nat, to as nat);
    }
    lemma_one();
    lemma_quotient_is(from, to);
    assert(uo * one <= one * un) by (nonlinear_arith)
        requires
            uo <= un,
    ;
    lemma_rounds_below(f, uo * one, un, ONE as nat);
    let r: u64 = f.quotient(from, to) as u64;
    lemma_seconds_and_back(pos);
    let s: u64 = pos.seconds();
    lemma_product_is(r, s);
    let ur: nat = f.units(r as nat);
    let us: nat = f.units(s as nat);
    assert(ur * us <= us * one) by (nonlinear_arith)
        requires
            ur <= one,
    ;
    lemma_rounds_below(f, ur * us, one, s as nat);
    lemma_nanos_ordered(f.product(r, s) as u64, s);
}

/// Lowering the tempo moves the position at tempo forward.
pub proof fn law_slower_moves_forward(pos: Duration, from: u64, to: u64)
    requires
        pos.wf(),
        pos.secs < 0x80_0000 || (pos.nanos == 0 && pos.secs < 0x20_0000_0000_0000),
        is_tempo(from),
        is_tempo(to),
        to <= from,
        moved_by_tempo(pos, from, to) is Some,
    ensures
        moved_by_tempo(pos, from, to)->0 >= pos.total(),
{
    let f: Format = Format::Double;
    let one: nat = second();
    let uo: nat = f.units(from as nat);
    let un: nat = f.units(to as nat);
    if to < from {
        lemma_units_increase(f, to as nat, from as nat);
    }
    lemma_one();
    lemma_quotient_is(from, to);
    assert(uo * one >= one * un) by (nonlinear_arith)
        requires
            uo >= un,
    ;
    lemma_rounds_above(f, uo * one, un, ONE as nat);
    let r: u64 = f.quotient(from, to) as u64;
    lemma_seconds_and_back(pos);
    let s: u64 = pos.seconds();
    if r == f.infinity() {
        if f.units(r as nat) < pow2(64) * pow2(1074) {
            lemma_span_is_finite(r as nat);
        }
        assert(false);
    }
    lemma_product_is(r, s);
    let ur: nat = f.units(r as nat);
    let us: nat = f.units(s as nat);
    assert(ur * us >= us * one) by (nonlinear_arith)
        requires
            ur >= one,
    ;
    lemma_rounds_above(f, ur * us, one, s as nat);
    lemma_nanos_ordered(s, f.product(r, s) as u64);
}

} // verus!
