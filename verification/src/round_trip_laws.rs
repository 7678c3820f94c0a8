//! Positions that go to tempo and come back.

use crate::accuracy::{
    distance, law_whole_numbers_are_exact, lemma_distance_scaled, lemma_exact, lemma_rounds_below,
    lemma_second, lemma_seconds_parts, lemma_sum_of_numbers, second,
};
use crate::controller::ONE;
use crate::float_model::{
    lemma_nearest_of_units, lemma_units_increase, lemma_units_of_parts, Format,
};
use crate::input_laws::{
    lemma_divided_exists, lemma_is_span, lemma_seconds_bounded, lemma_tempo_numbers,
};
use crate::position_laws::{
    law_original_tempo, lemma_half_even_is, lemma_product_is, lemma_quotient_is,
};
use crate::tempo_laws::{finely, is_tempo, law_length_at_tempo, law_position_at_real_time};
use crate::time::{lemma_total_determines, nanos_of_seconds, Duration};
use vstd::arithmetic::power2::{
    lemma2_to64_rest, lemma_pow2_adds, lemma_pow2_pos, lemma_pow2_unfold, pow2,
};
use vstd::prelude::*;

verus! {

/// The pattern of 2.0.
pub const TWO: u64 = 0x4000_0000_0000_0000;

/// The pattern of 0.5.
pub const HALF: u64 = 0x3fe0_0000_0000_0000;

/// A position of `d` at real time, taken to tempo, is a position that can be taken back.
pub open spec fn comes_back(d: Duration, tempo: u64) -> bool {
    let at_tempo = Duration::of_total(d.divided(tempo)->0);
    &&& d.divided(tempo) is Some
    &&& at_tempo.wf()
    &&& at_tempo.total() == d.divided(tempo)->0
    &&& at_tempo.times(tempo) is Some
}

/// The position that `d` comes back as from tempo, in nanoseconds.
pub open spec fn there_and_back(d: Duration, tempo: u64) -> nat {
    Duration::of_total(d.divided(tempo)->0).times(tempo)->0
}

/// The units of a tempo in the range of the keys.
proof fn lemma_tempo_units(tempo: u64)
    requires
        0x3fb0_0000_0000_0000 <= tempo <= 0x4000_6666_6666_6666,
    ensures
        ({
            let p = pow2(1017);
            let ut = Format::Double.units(tempo as nat);
            &&& second() == 0x200_0000_0000_0000 * p
            &&& 0x20_0000_0000_0000 * p <= ut <= 0x419_9999_9999_9980 * p
        }),
{
    let f: Format = Format::Double;
    lemma_tempo_numbers();
    lemma_pow2_adds(57, 1017);
    lemma2_to64_rest();
    if tempo > 0x3fb0_0000_0000_0000 {
        lemma_units_increase(f, 0x3fb0_0000_0000_0000, tempo as nat);
    }
    if tempo < 0x4000_6666_6666_6666 {
        lemma_units_increase(f, tempo as nat, 0x4000_6666_6666_6666);
    }
}

/// A position of less than two to the fifty-eight seconds at a tempo of at most 2.05 stands for a
/// position at real time.
proof fn lemma_times_exists(d: Duration, tempo: u64)
    requires
        d.wf(),
        d.secs < 0x400_0000_0000_0000,
        0x3fb0_0000_0000_0000 <= tempo <= 0x4000_6666_6666_6666,
    ensures
        d.times(tempo) is Some,
{
    let f: Format = Format::Double;
    let one: nat = second();
    lemma_second();
    lemma_tempo_units(tempo);
    lemma_seconds_bounded(d);
    lemma_product_is(tempo, d.seconds());
    let ut: nat = f.units(tempo as nat);
    let us: nat = f.units(d.seconds() as nat);
    let top: nat = lemma_exact(f, 0x20, 1130);
    lemma_pow2_adds(56, 1074);
    lemma2_to64_rest();
    assert(0x20 * pow2(1130) == 0x2000_0000_0000_0000 * one) by (nonlinear_arith)
        requires
            pow2(1130) == 0x100_0000_0000_0000 * one,
    ;
    assert(ut * us <= f.units(top) * one) by (nonlinear_arith)
        requires
            ut <= 4 * one,
            us <= 0x800_0000_0000_0000 * one,
            f.units(top) == 0x2000_0000_0000_0000 * one,
    ;
    lemma_rounds_below(f, ut * us, one, top);
    lemma_is_span(f.nearest(ut * us, one), 0x2000_0000_0000_0000);
}

/// The arithmetic behind [`law_there_and_back_in_a_day`].
proof fn lemma_back_errors(total: nat, one: nat, ut: nat, p: nat, n: nat, back: nat)
    requires
        p > 0,
        total <= 86_400_000_000_000,
        one == 0x200_0000_0000_0000 * p,
        ut <= 0x419_9999_9999_9980 * p,
        32 * finely(distance(n * ut, total * one)) <= 17 * finely(ut) + 32 * (total * one),
        32 * finely(distance(back * one, n * ut)) <= 17 * finely(one) + 32 * (n * ut),
    ensures
        distance(back, total) <= 1,
{
    let a: nat = back * one;
    let b: nat = n * ut;
    let c: nat = total * one;
    assert(c <= 86_400_000_000_000 * one) by (nonlinear_arith)
        requires
            c == total * one,
            total <= 86_400_000_000_000,
    ;
    assert(distance(a, c) < 2 * one);
    lemma_distance_scaled(back, total, one);
    let e: nat = distance(back, total);
    assert(e <= 1) by (nonlinear_arith)
        requires
            e * one < 2 * one,
    ;
}

/// At a tempo from 0.0625 to 2.05, which all tempos that the keys lead to are, a position of up to
/// twenty-four hours goes to tempo and comes back to within one nanosecond.
pub proof fn law_there_and_back_in_a_day(d: Duration, tempo: u64)
    requires
        d.wf(),
        d.total() <= 86_400_000_000_000,
        0x3fb0_0000_0000_0000 <= tempo <= 0x4000_6666_6666_6666,
    ensures
        comes_back(d, tempo),
        distance(there_and_back(d, tempo), d.total()) <= 1,
{
    let f: Format = Format::Double;
    let one: nat = second();
    let p: nat = pow2(1017);
    let ut: nat = f.units(tempo as nat);
    lemma_pow2_pos(1017);
    lemma_tempo_units(tempo);
    lemma_divided_exists(d, tempo);
    law_length_at_tempo(d, tempo);
    let n: nat = d.divided(tempo)->0;
    let total: nat = d.total();
    assert(n <= 40 * 86_400_000_000_000) by {
        assert(total * one <= 86_400_000_000_000 * one) by (nonlinear_arith)
            requires
                total <= 86_400_000_000_000,
        ;
        assert(n * ut <= 2 * (86_400_000_000_000 * one) + 2 * ut);
        assert(one <= 16 * ut);
        assert(n * ut <= 2_764_800_000_000_002 * ut);
        assert(n <= 2_764_800_000_000_002) by (nonlinear_arith)
            requires
                n * ut <= 2_764_800_000_000_002 * ut,
                ut > 0,
        ;
    }
    let at_tempo: Duration = Duration::of_total(n);
    assert(at_tempo.wf() && at_tempo.total() == n);
    lemma_times_exists(at_tempo, tempo);
    law_position_at_real_time(at_tempo, tempo);
    lemma_back_errors(total, one, ut, p, n, at_tempo.times(tempo)->0);
}

/// A number of half seconds is a number of seconds exactly.
proof fn lemma_half_seconds(d: Duration, m: nat)
    requires
        d.wf(),
        d.total() == 500_000_000 * m,
        m < 0x20_0000_0000_0000,
    ensures
        d.seconds() < Format::Double.infinity(),
        Format::Double.units(d.seconds() as nat) == m * pow2(1073),
{
    let f: Format = Format::Double;
    let one: nat = second();
    let half: nat = pow2(1073);
    lemma_second();
    lemma_pow2_unfold(1074);
    lemma_seconds_parts(d);
    assert(d.secs == m / 2 && d.nanos == 500_000_000 * (m % 2));
    let s: nat = f.whole(d.secs as nat);
    let billion: nat = f.whole(1_000_000_000);
    let q: nat = f.quotient(f.whole(d.nanos as nat) as u64, billion as u64);
    law_whole_numbers_are_exact(f, d.secs as nat);
    law_whole_numbers_are_exact(f, d.nanos as nat);
    law_whole_numbers_are_exact(f, 1_000_000_000);
    assert(billion > 0) by {
        if billion == 0 {
            assert(f.units(billion) == 0);
        }
    }
    lemma_quotient_is(f.whole(d.nanos as nat) as u64, billion as u64);
    let k: nat = lemma_exact(f, m % 2, 1073);
    let r: nat = m % 2;
    let ub: nat = f.units(billion);
    lemma_nearest_of_units(f, ub, k);
    assert(f.units(f.whole(d.nanos as nat)) * one == f.units(k) * ub) by (nonlinear_arith)
        requires
            f.units(f.whole(d.nanos as nat)) == (500_000_000 * r) * one,
            f.units(k) == r * half,
            ub == 1_000_000_000 * one,
            one == 2 * half,
    ;
    assert(q == k);
    lemma_sum_of_numbers(s as u64, q as u64);
    let w: nat = lemma_exact(f, m, 1073);
    lemma_nearest_of_units(f, 1, w);
    assert(d.secs as nat * one + r * half == m * half) by (nonlinear_arith)
        requires
            one == 2 * half,
            m == 2 * d.secs + r,
    ;
    assert(f.units(w) * 1 == f.units(s) + f.units(q));
}

/// A number of half seconds is a whole number of nanoseconds.
proof fn lemma_half_seconds_back(k: nat, m: nat)
    requires
        k < Format::Double.infinity(),
        Format::Double.units(k) == m * pow2(1073),
        m < 0x40_0000_0000_0000,
    ensures
        nanos_of_seconds(k as u64) == Some(500_000_000 * m),
{
    let one: nat = second();
    let half: nat = pow2(1073);
    lemma_second();
    lemma_pow2_unfold(1074);
    let n: nat = 500_000_000 * m;
    assert(n * one == (m * half) * 1_000_000_000) by (nonlinear_arith)
        requires
            n == 500_000_000 * m,
            one == 2 * half,
    ;
    lemma_half_even_is((m * half) * 1_000_000_000, one, n);
    assert(m * half <= 0x40_0000_0000_0000 * one) by (nonlinear_arith)
        requires
            m <= 0x40_0000_0000_0000,
            one == 2 * half,
    ;
    lemma_is_span(k, 0x40_0000_0000_0000);
}

/// The units of one half and of two.
proof fn lemma_half_and_two()
    ensures
        Format::Double.units(HALF as nat) == pow2(1073),
        Format::Double.units(TWO as nat) == 2 * second(),
        second() == 2 * pow2(1073),
        pow2(1073) > 0,
{
    let f: Format = Format::Double;
    lemma_units_of_parts(f, 1021, 0x10_0000_0000_0000);
    lemma_units_of_parts(f, 1023, 0x10_0000_0000_0000);
    lemma2_to64_rest();
    lemma_pow2_adds(52, 1021);
    lemma_pow2_adds(52, 1023);
    lemma_pow2_unfold(1074);
    lemma_pow2_unfold(1075);
    lemma_pow2_pos(1073);
}

/// A number of half seconds that a tempo turns into another comes back.
proof fn lemma_comes_back(d: Duration, tempo: u64, m: nat, n: nat, kd: nat, kn: nat)
    requires
        d.wf(),
        is_tempo(tempo),
        d.total() == 500_000_000 * m,
        m < 0x20_0000_0000_0000,
        n < 0x20_0000_0000_0000,
        kd < Format::Double.infinity(),
        kn < Format::Double.infinity(),
        Format::Double.units(kd) == m * pow2(1073),
        Format::Double.units(kn) == n * pow2(1073),
        // the tempo is `m` by `n`
        Format::Double.units(tempo as nat) * n == m * second(),
    ensures
        comes_back(d, tempo),
        there_and_back(d, tempo) == d.total(),
{
    let f: Format = Format::Double;
    let one: nat = second();
    let half: nat = pow2(1073);
    let ut: nat = f.units(tempo as nat);
    lemma_second();
    lemma_half_seconds(d, m);
    lemma_quotient_is(d.seconds(), tempo);
    lemma_nearest_of_units(f, ut, kn);
    assert((m * half) * one == (n * half) * ut) by (nonlinear_arith)
        requires
            ut * n == m * one,
    ;
    lemma_half_seconds_back(kn, n);
    assert(d.divided(tempo) == Some(500_000_000 * n));
    let at_tempo: Duration = Duration::of_total(500_000_000 * n);
    assert(at_tempo.wf() && at_tempo.total() == 500_000_000 * n);
    lemma_half_seconds(at_tempo, n);
    lemma_product_is(tempo, at_tempo.seconds());
    lemma_nearest_of_units(f, one, kd);
    assert(ut * (n * half) == (m * half) * one) by (nonlinear_arith)
        requires
            ut * n == m * one,
    ;
    lemma_half_seconds_back(kd, m);
}

/// At half, original and double tempo, a whole number of seconds goes to tempo and comes back
/// exactly.
pub proof fn law_whole_seconds_come_back(d: Duration, tempo: u64)
    requires
        d.nanos == 0,
        d.secs < 0x8_0000_0000_0000,
        tempo == HALF || tempo == ONE || tempo == TWO,
    ensures
        comes_back(d, tempo),
        there_and_back(d, tempo) == d.total(),
{
    let f: Format = Format::Double;
    let one: nat = second();
    let s: nat = d.secs as nat;
    if tempo == ONE {
        law_original_tempo(d);
        lemma_total_determines(d, d);
    } else {
        lemma_half_and_two();
        let kd: nat = lemma_exact(f, 2 * s, 1073);
        if tempo == HALF {
            let kn: nat = lemma_exact(f, 4 * s, 1073);
            assert(pow2(1073) * (4 * s) == (2 * s) * one) by (nonlinear_arith)
                requires
                    one == 2 * pow2(1073),
            ;
            lemma_comes_back(d, tempo, 2 * s, 4 * s, kd, kn);
        } else {
            let kn: nat = lemma_exact(f, s, 1073);
            assert((2 * one) * s == (2 * s) * one) by (nonlinear_arith);
            lemma_comes_back(d, tempo, 2 * s, s, kd, kn);
        }
    }
}

} // verus!
