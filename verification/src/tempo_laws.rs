//! What changing the tempo does to lengths and positions.

use crate::accuracy::{
    distance, in_parts, lemma_distance_scaled, lemma_double_error, lemma_exact, lemma_second,
    lemma_seconds_close, parts, second,
};
use crate::float_model::{half_even, lemma_nearest_exists, lemma_units_increase, Format};
use crate::input::moved_by_tempo;
use crate::time::Duration;
use vstd::arithmetic::power2::{lemma_pow2_adds, pow2};
use vstd::prelude::*;

verus! {

/// A number times two to the forty-nine.
pub open spec fn finely(x: nat) -> nat {
    0x2_0000_0000_0000 * x
}

/// Whether a pattern is that of a positive finite number.
pub open spec fn is_tempo(tempo: u64) -> bool {
    0 < tempo < Format::Double.infinity()
}

/// Rounding to a whole number changes by at most one half.
pub proof fn lemma_half_even_close(n: nat, d: nat)
    requires
        d > 0,
    ensures
        2 * distance(half_even(n, d) * d, n) <= d,
{
    vstd::arithmetic::div_mod::lemma_fundamental_div_mod(n as int, d as int);
    let q: nat = n / d;
    let r: nat = n % d;
    assert((q + 1) * d == q * d + d) by (nonlinear_arith);
    assert(d * q == q * d) by (nonlinear_arith);
}

/// A number of seconds that stands for a span is finite.
pub proof fn lemma_span_is_finite(k: nat)
    requires
        k <= Format::Double.infinity(),
        Format::Double.units(k) < pow2(64) * pow2(1074),
    ensures
        k < Format::Double.infinity(),
{
    let f: Format = Format::Double;
    let top: nat = lemma_exact(f, 1, 1074 + 64);
    lemma_pow2_adds(64, 1074);
    lemma_units_increase(f, top, f.infinity());
}

/// The arithmetic behind [`law_length_at_tempo`].
proof fn lemma_divided_errors(total: nat, one: nat, us: nat, ut: nat, uq: nat, n: nat)
    requires
        total > 0,
        ut > 0,
        one >= 0x1_0000_0000_0000_0000_0000_0000_0000,
        2 * in_parts(distance(total * one, us * 1_000_000_000)) <= 1_000_000_000 * (3 * us + 4
            * parts()),
        2 * in_parts(distance(us * one, uq * ut)) <= uq * ut + in_parts(ut),
        2 * distance(n * one, uq * 1_000_000_000) <= one,
    ensures
        32 * finely(distance(n * ut, total * one)) <= 17 * finely(ut) + 32 * (total * one),
{
    let y1: nat = (n * ut) * one;
    let y3: nat = (total * one) * one;
    let x1: nat = uq * ut;
    let x2: nat = us * one;
    let w: nat = ut * one;
    let e1: nat = distance(n * one, uq * 1_000_000_000);
    let e3: nat = distance(total * one, us * 1_000_000_000);
    lemma_distance_scaled(n * one, uq * 1_000_000_000, ut);
    lemma_distance_scaled(total * one, us * 1_000_000_000, one);
    assert((n * one) * ut == y1) by (nonlinear_arith)
        requires
            y1 == (n * ut) * one,
    ;
    assert((uq * 1_000_000_000) * ut == 1_000_000_000 * x1) by (nonlinear_arith)
        requires
            x1 == uq * ut,
    ;
    assert((us * 1_000_000_000) * one == 1_000_000_000 * x2) by (nonlinear_arith)
        requires
            x2 == us * one,
    ;
    assert(2 * (e1 * ut) <= w) by (nonlinear_arith)
        requires
            2 * e1 <= one,
            w == ut * one,
    ;
    assert(2 * (0x10_0000_0000_0000 * (e3 * one)) <= 1_000_000_000 * (3 * x2 + 4 * (
    0x10_0000_0000_0000 * one))) by (nonlinear_arith)
        requires
            2 * (0x10_0000_0000_0000 * e3) <= 1_000_000_000 * (3 * us + 4 * 0x10_0000_0000_0000),
            x2 == us * one,
    ;
    assert(w >= 0x1_0000_0000_0000_0000_0000_0000_0000 * ut) by (nonlinear_arith)
        requires
            w == ut * one,
            one >= 0x1_0000_0000_0000_0000_0000_0000_0000,
    ;
    assert(y3 >= 0x1_0000_0000_0000_0000_0000_0000_0000 * one) by (nonlinear_arith)
        requires
            y3 == (total * one) * one,
            one >= 0x1_0000_0000_0000_0000_0000_0000_0000,
            total >= 1,
    ;
    lemma_chain(y1, x1, x2, y3, w, ut, one);
    let e: nat = distance(n * ut, total * one);
    lemma_distance_scaled(n * ut, total * one, one);
    assert(32 * (0x2_0000_0000_0000 * e) <= 17 * (0x2_0000_0000_0000 * ut) + 32 * (total * one))
        by (nonlinear_arith)
        requires
            32 * (0x2_0000_0000_0000 * (e * one)) <= 17 * (0x2_0000_0000_0000 * w) + 32 * y3,
            w == ut * one,
            y3 == (total * one) * one,
            one > 0,
    ;
}

/// Adds up what rounding changes on the way from one span to another: to seconds, by the tempo,
/// and to whole nanoseconds.
proof fn lemma_chain(y1: nat, x1: nat, x2: nat, y3: nat, w: nat, v1: nat, v2: nat)
    requires
        2 * distance(y1, 1_000_000_000 * x1) <= w,
        2 * in_parts(distance(x2, x1)) <= x1 + in_parts(v1),
        2 * in_parts(distance(y3, 1_000_000_000 * x2)) <= 1_000_000_000 * (3 * x2 + 4 * in_parts(
            v2,
        )),
        w >= 0x1_0000_0000_0000_0000_0000_0000_0000 * v1,
        y3 >= 0x1_0000_0000_0000_0000_0000_0000_0000 * v2,
    ensures
        32 * finely(distance(y1, y3)) <= 17 * finely(w) + 32 * y3,
{
    assert(1_000_000_000 * x2 <= 2 * y3);
    assert(x1 <= 2 * x2 + v1);
    assert(distance(y1, y3) <= distance(y1, 1_000_000_000 * x1) + 1_000_000_000 * distance(x2, x1)
        + distance(y3, 1_000_000_000 * x2));
}

/// The length of a track at a tempo, times the tempo, is the length of the track, to within
/// seventeen thirty-seconds of a nanosecond at tempo and one part in two to the forty-nine: at
/// double the tempo a track takes half its time.
pub proof fn law_length_at_tempo(d: Duration, tempo: u64)
    requires
        d.wf(),
        is_tempo(tempo),
        d.divided(tempo) is Some,
    ensures
        32 * finely(
            distance(
                d.divided(tempo)->0 * Format::Double.units(tempo as nat),
                d.total() * second(),
            ),
        ) <= 17 * finely(Format::Double.units(tempo as nat)) + 32 * (d.total() * second()),
{
    let f: Format = Format::Double;
    let one: nat = second();
    let s: u64 = d.seconds();
    let us: nat = f.units(s as nat);
    let ut: nat = f.units(tempo as nat);
    lemma_second();
    lemma_seconds_close(d);
    lemma_units_increase(f, 0, tempo as nat);
    let q: nat = f.nearest(us * one, ut);
    lemma_nearest_exists(f, us * one, ut);
    assert(f.quotient(s, tempo) == q);
    lemma_span_is_finite(q);
    lemma_double_error(us * one, ut);
    let uq: nat = f.units(q);
    lemma_half_even_close(uq * 1_000_000_000, one);
    let n: nat = half_even(uq * 1_000_000_000, one);
    assert(d.divided(tempo) == Some(n));
    if d.total() > 0 {
        lemma_divided_errors(d.total(), one, us, ut, uq, n);
    } else {
        assert(us == 0);
        assert(us * one == 0) by (nonlinear_arith)
            requires
                us == 0,
        ;
        assert(uq * ut <= 2 * ut);
        assert(uq <= 2) by (nonlinear_arith)
            requires
                uq * ut <= 2 * ut,
                ut > 0,
        ;
        assert(n == 0) by {
            assert(n * one <= 2 * one);
            assert(n <= 0) by (nonlinear_arith)
                requires
                    2 * (n * one) <= one + 2 * (2 * 1_000_000_000),
                    one > 0x1_0000_0000_0000,
            ;
        }
        assert(n * ut == 0) by (nonlinear_arith)
            requires
                n == 0,
        ;
        assert(d.total() * one == 0) by (nonlinear_arith)
            requires
                d.total() == 0,
        ;
    }
}

/// The arithmetic behind [`law_position_at_real_time`].
proof fn lemma_product_errors(total: nat, one: nat, us: nat, ut: nat, up: nat, n: nat)
    requires
        total > 0,
        one >= 0x1_0000_0000_0000_0000_0000_0000_0000,
        2 * in_parts(distance(total * one, us * 1_000_000_000)) <= 1_000_000_000 * (3 * us + 4
            * parts()),
        2 * in_parts(distance(ut * us, up * one)) <= up * one + in_parts(one),
        2 * distance(n * one, up * 1_000_000_000) <= one,
    ensures
        32 * finely(distance(n * one, total * ut)) <= 17 * finely(one) + 32 * (total * ut),
{
    let y1: nat = (n * one) * one;
    let y3: nat = (total * ut) * one;
    let x1: nat = up * one;
    let x2: nat = ut * us;
    let w: nat = one * one;
    let e1: nat = distance(n * one, up * 1_000_000_000);
    let e3: nat = distance(total * one, us * 1_000_000_000);
    lemma_distance_scaled(n * one, up * 1_000_000_000, one);
    lemma_distance_scaled(total * one, us * 1_000_000_000, ut);
    assert((total * one) * ut == y3) by (nonlinear_arith)
        requires
            y3 == (total * ut) * one,
    ;
    assert((up * 1_000_000_000) * one == 1_000_000_000 * x1) by (nonlinear_arith)
        requires
            x1 == up * one,
    ;
    assert((us * 1_000_000_000) * ut == 1_000_000_000 * x2) by (nonlinear_arith)
        requires
            x2 == ut * us,
    ;
    assert(2 * (e1 * one) <= w) by (nonlinear_arith)
        requires
            2 * e1 <= one,
            w == one * one,
    ;
    assert(2 * (0x10_0000_0000_0000 * (e3 * ut)) <= 1_000_000_000 * (3 * x2 + 4 * (
    0x10_0000_0000_0000 * ut))) by (nonlinear_arith)
        requires
            2 * (0x10_0000_0000_0000 * e3) <= 1_000_000_000 * (3 * us + 4 * 0x10_0000_0000_0000),
            x2 == ut * us,
    ;
    assert(w >= 0x1_0000_0000_0000_0000_0000_0000_0000 * one) by (nonlinear_arith)
        requires
            w == one * one,
            one >= 0x1_0000_0000_0000_0000_0000_0000_0000,
    ;
    assert(y3 >= 0x1_0000_0000_0000_0000_0000_0000_0000 * ut) by (nonlinear_arith)
        requires
            y3 == (total * ut) * one,
            one >= 0x1_0000_0000_0000_0000_0000_0000_0000,
            total >= 1,
    ;
    lemma_chain(y1, x1, x2, y3, w, one, ut);
    let e: nat = distance(n * one, total * ut);
    lemma_distance_scaled(n * one, total * ut, one);
    assert(32 * (0x2_0000_0000_0000 * e) <= 17 * (0x2_0000_0000_0000 * one) + 32 * (total * ut))
        by (nonlinear_arith)
        requires
            32 * (0x2_0000_0000_0000 * (e * one)) <= 17 * (0x2_0000_0000_0000 * w) + 32 * y3,
            w == one * one,
            y3 == (total * ut) * one,
            one > 0,
    ;
}

/// A position at tempo stands for the position times the tempo at real time, to within seventeen
/// thirty-seconds of a nanosecond and one part in two to the forty-nine.
pub proof fn law_position_at_real_time(d: Duration, tempo: u64)
    requires
        d.wf(),
        tempo < Format::Double.infinity(),
        d.times(tempo) is Some,
    ensures
        32 * finely(
            distance(
                d.times(tempo)->0 * second(),
                d.total() * Format::Double.units(tempo as nat),
            ),
        ) <= 17 * finely(second()) + 32 * (d.total() * Format::Double.units(tempo as nat)),
{
    let f: Format = Format::Double;
    let one: nat = second();
    let s: u64 = d.seconds();
    let us: nat = f.units(s as nat);
    let ut: nat = f.units(tempo as nat);
    lemma_second();
    lemma_seconds_close(d);
    let p: nat = f.nearest(ut * us, one);
    lemma_nearest_exists(f, ut * us, one);
    assert(f.product(tempo, s) == p);
    lemma_span_is_finite(p);
    lemma_double_error(ut * us, one);
    let up: nat = f.units(p);
    lemma_half_even_close(up * 1_000_000_000, one);
    let n: nat = half_even(up * 1_000_000_000, one);
    assert(d.times(tempo) == Some(n));
    if d.total() > 0 {
        lemma_product_errors(d.total(), one, us, ut, up, n);
    } else {
        assert(ut * us == 0) by (nonlinear_arith)
            requires
                us == 0,
        ;
        assert(up <= 2) by (nonlinear_arith)
            requires
                up * one <= 2 * one,
                one > 0,
        ;
        assert(n == 0) by (nonlinear_arith)
            requires
                2 * (n * one) <= one + 2 * (2 * 1_000_000_000),
                one > 0x1_0000_0000_0000,
        ;
        assert(n * one == 0) by (nonlinear_arith)
            requires
                n == 0,
        ;
        assert(d.total() * ut == 0) by (nonlinear_arith)
            requires
                d.total() == 0,
        ;
    }
}

/// Going to a position at tempo and back to real time comes back to the same position, to within
/// seventeen thirty-seconds of a nanosecond, eighteen thirty-seconds of a nanosecond at tempo, and
/// three parts in two to the forty-nine.
pub proof fn law_there_and_back(d: Duration, tempo: u64, at_tempo: Duration, back: Duration)
    requires
        d.wf(),
        at_tempo.wf(),
        is_tempo(tempo),
        d.divided(tempo) == Some(at_tempo.total()),
        at_tempo.times(tempo) == Some(back.total()),
    ensures
        32 * finely(distance(back.total() * second(), d.total() * second())) <= 17 * finely(
            second(),
        ) + 18 * finely(Format::Double.units(tempo as nat)) + 96 * (d.total() * second()),
{
    law_length_at_tempo(d, tempo);
    law_position_at_real_time(at_tempo, tempo);
}

/// The arithmetic behind [`law_tempo_change_keeps_place`].
proof fn lemma_place_errors(total: nat, one: nat, uo: nat, un: nat, ur: nat, n: nat)
    requires
        one >= 0x1_0000_0000_0000_0000_0000_0000_0000,
        total <= 0x1_0000_0000_0000_0000_0000_0000,
        2 * in_parts(distance(uo * one, ur * un)) <= ur * un + in_parts(un),
        finely(distance(n * one, total * ur)) <= finely(one) + total * ur,
    ensures
        finely(distance(n * un, total * uo)) <= 2 * finely(un) + 4 * (total * uo),
{
    let y1: nat = (n * un) * one;
    let x1: nat = total * (ur * un);
    let y3: nat = (total * uo) * one;
    let w: nat = un * one;
    let small: nat = total * un;
    let e1: nat = distance(n * one, total * ur);
    let e2: nat = distance(uo * one, ur * un);
    lemma_distance_scaled(n * one, total * ur, un);
    lemma_distance_scaled(uo * one, ur * un, total);
    assert((n * one) * un == y1) by (nonlinear_arith)
        requires
            y1 == (n * un) * one,
    ;
    assert((total * ur) * un == x1) by (nonlinear_arith)
        requires
            x1 == total * (ur * un),
    ;
    assert((ur * un) * total == x1) by (nonlinear_arith)
        requires
            x1 == total * (ur * un),
    ;
    assert((uo * one) * total == y3) by (nonlinear_arith)
        requires
            y3 == (total * uo) * one,
    ;
    assert(0x2_0000_0000_0000 * (e1 * un) <= 0x2_0000_0000_0000 * w + x1) by (nonlinear_arith)
        requires
            0x2_0000_0000_0000 * e1 <= 0x2_0000_0000_0000 * one + total * ur,
            w == un * one,
            x1 == (total * ur) * un,
    ;
    assert(2 * (0x10_0000_0000_0000 * (e2 * total)) <= x1 + 0x10_0000_0000_0000 * small)
        by (nonlinear_arith)
        requires
            2 * (0x10_0000_0000_0000 * e2) <= ur * un + 0x10_0000_0000_0000 * un,
            x1 == total * (ur * un),
            small == total * un,
    ;
    assert(0x1_0000 * small <= w) by (nonlinear_arith)
        requires
            small == total * un,
            w == un * one,
            0x1_0000 * total <= one,
    ;
    assert(0x2_0000_0000_0000 * distance(y1, y3) <= 2 * (0x2_0000_0000_0000 * w) + 4 * y3);
    let e: nat = distance(n * un, total * uo);
    lemma_distance_scaled(n * un, total * uo, one);
    assert(0x2_0000_0000_0000 * e <= 2 * (0x2_0000_0000_0000 * un) + 4 * (total * uo))
        by (nonlinear_arith)
        requires
            0x2_0000_0000_0000 * (e * one) <= 2 * (0x2_0000_0000_0000 * w) + 4 * y3,
            w == un * one,
            y3 == (total * uo) * one,
            one > 0,
    ;
}

/// After a change of tempo and the seek that goes with it, the track stands where it stood: the
/// new position times the new tempo is the position times the old tempo, to within two
/// nanoseconds at the new tempo and four parts in two to the forty-nine.
pub proof fn law_tempo_change_keeps_place(pos: Duration, from: u64, to: u64)
    requires
        pos.wf(),
        is_tempo(from),
        is_tempo(to),
        moved_by_tempo(pos, from, to) is Some,
    ensures
        finely(
            distance(
                moved_by_tempo(pos, from, to)->0 * Format::Double.units(to as nat),
                pos.total() * Format::Double.units(from as nat),
            ),
        ) <= 2 * finely(Format::Double.units(to as nat)) + 4 * (pos.total() * Format::Double.units(
            from as nat,
        )),
{
    let f: Format = Format::Double;
    let one: nat = second();
    let uo: nat = f.units(from as nat);
    let un: nat = f.units(to as nat);
    lemma_second();
    lemma_units_increase(f, 0, to as nat);
    let r: nat = f.nearest(uo * one, un);
    lemma_nearest_exists(f, uo * one, un);
    assert(f.quotient(from, to) == r);
    if r == f.infinity() {
        lemma_seconds_close(pos);
        if f.units(r) < pow2(64) * pow2(1074) {
            lemma_span_is_finite(r);
        }
    }
    lemma_double_error(uo * one, un);
    law_position_at_real_time(pos, r as u64);
    let n: nat = moved_by_tempo(pos, from, to)->0;
    lemma_place_errors(pos.total(), one, uo, un, f.units(r), n);
}

} // verus!
