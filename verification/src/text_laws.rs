//! Times that are shown can be read back.

use crate::accuracy::law_whole_numbers_are_exact;
use crate::decimal_float::nearest_decimal;
use crate::digits::ten_to;
use crate::float_model::{lemma_nearest_of_units, lemma_units_of_parts, Format};
use crate::text::{decimal, digit, padded_left, time_text};
use crate::timestamp::{
    all_digits, decimal_value, digits_end, digits_value, fields, hours_minutes_and_seconds,
    hours_value, is_digit, lower, minutes_and_seconds, minutes_value, seconds_value, time_value,
    trimmed_end, trimmed_start, unsigned, whole_value, TimeError, HOUR, SIXTY,
};
use vstd::arithmetic::power2::{lemma2_to64, lemma_pow2_adds, lemma_pow2_pos, pow2};
use vstd::prelude::*;

verus! {

/// A number in decimal digits stands for itself.
pub proof fn law_decimal_reads_back(n: nat)
    ensures
        all_digits(decimal(n)),
        decimal(n).len() > 0,
        digits_value(decimal(n)) == n,
    decreases n,
{
    if n < 10 {
        reveal_with_fuel(digits_value, 2);
        assert(decimal(n).drop_last() =~= Seq::<char>::empty());
    } else {
        law_decimal_reads_back(n / 10);
        assert(decimal(n).drop_last() =~= decimal(n / 10));
        assert forall|i: int| 0 <= i < decimal(n).len() implies is_digit(
            #[trigger] decimal(n)[i],
        ) by {
            if i < decimal(n).len() - 1 {
                assert(decimal(n)[i] == decimal(n / 10)[i]);
            }
        }
    }
}

/// Two digits stand for their number.
proof fn lemma_two_digits(n: nat)
    requires
        n < 100,
    ensures
        all_digits(padded_left(decimal(n), 2, '0')),
        padded_left(decimal(n), 2, '0').len() == 2,
        digits_value(padded_left(decimal(n), 2, '0')) == n,
{
    reveal_with_fuel(decimal, 2);
    reveal_with_fuel(digits_value, 3);
    let s: Seq<char> = padded_left(decimal(n), 2, '0');
    assert(s =~= seq![digit(n / 10), digit(n % 10)]);
    assert(s.drop_last() =~= seq![digit(n / 10)]);
    assert(s.drop_last().drop_last() =~= Seq::<char>::empty());
}

/// Digits without a colon are a field of their own.
proof fn lemma_fields(s: Seq<char>, t: Seq<char>)
    requires
        all_digits(t),
    ensures
        fields(t) == seq![t],
        fields(s + seq![':'] + t) == fields(s).push(t),
    decreases t.len(),
{
    let whole: Seq<char> = s + seq![':'] + t;
    if t.len() == 0 {
        assert(whole.drop_last() =~= s);
        assert(whole.last() == ':');
        assert(t =~= Seq::<char>::empty());
    } else {
        let u: Seq<char> = t.drop_last();
        assert forall|i: int| 0 <= i < u.len() implies is_digit(#[trigger] u[i]) by {
            assert(u[i] == t[i]);
        }
        lemma_fields(s, u);
        assert(whole.drop_last() =~= s + seq![':'] + u);
        assert(is_digit(t[t.len() - 1]));
        assert(u.push(t.last()) =~= t);
        assert(fields(s).push(u).drop_last() =~= fields(s));
        assert(fields(s).push(u).last() == u);
        assert(seq![u].drop_last().push(t) =~= seq![t]);
        assert(whole.last() == t.last());
    }
}

/// A text that starts and ends with a digit has no white space around it.
proof fn lemma_trimmed(s: Seq<char>)
    requires
        s.len() > 0,
        is_digit(s[0]),
        is_digit(s.last()),
    ensures
        trimmed_end(trimmed_start(s)) == s,
{
}

/// Digits are all of themselves.
proof fn lemma_digits_end(s: Seq<char>, from: nat)
    requires
        all_digits(s),
        from <= s.len(),
    ensures
        digits_end(s, from) == s.len(),
    decreases s.len() - from,
{
    if from < s.len() {
        assert(is_digit(s[from as int]));
        lemma_digits_end(s, from + 1);
    }
}

/// Whole seconds in digits are read as themselves.
proof fn lemma_seconds_read(s: Seq<char>)
    requires
        all_digits(s),
        s.len() > 0,
    ensures
        seconds_value(s) == Ok::<u64, TimeError>(Format::Single.whole(digits_value(s)) as u64),
{
    let f: Format = Format::Single;
    let m: nat = digits_value(s);
    assert(is_digit(s[0]));
    assert(unsigned(s) == (false, s));
    assert(lower(s[0]) == s[0]);
    lemma_digits_end(s, 0);
    assert(s.take(s.len() as int) + Seq::<char>::empty() =~= s);
    assert(s.skip(s.len() as int) =~= Seq::<char>::empty());
    assert(decimal_value(s) == Some((m, 0int)));
    assert(ten_to(0) == 1);
    assert(m * 1 == m);
    assert(nearest_decimal(m, 0) == f.whole(m));
    crate::float_model::lemma_nearest_exists(f, m * pow2(149), 1);
    assert(!f.is_negative(f.whole(m) as u64));
}

/// A whole number in digits is read as itself.
proof fn lemma_whole_read(s: Seq<char>, max: nat)
    requires
        all_digits(s),
        s.len() > 0,
        digits_value(s) <= max,
    ensures
        whole_value(s, max) == Some(digits_value(s)),
{
    assert(is_digit(s[0]));
}

/// The pattern that stands for a whole number is that of the whole number.
proof fn lemma_whole_is(k: nat, m: nat)
    requires
        k < Format::Single.infinity(),
        Format::Single.units(k) == m * pow2(149),
    ensures
        Format::Single.whole(m) == k,
{
    lemma_nearest_of_units(Format::Single, 1, k);
    assert(Format::Single.units(k) * 1 == m * pow2(149));
}

/// Small whole numbers are multiplied exactly.
proof fn lemma_whole_product(a: nat, b: nat)
    requires
        a < 0x100_0000,
        b < 0x100_0000,
        a * b < 0x100_0000,
    ensures
        Format::Single.product(
            Format::Single.whole(a) as u64,
            Format::Single.whole(b) as u64,
        ) == Format::Single.whole(a * b),
{
    let f: Format = Format::Single;
    let one: nat = pow2(149);
    lemma_pow2_pos(149);
    law_whole_numbers_are_exact(f, a);
    law_whole_numbers_are_exact(f, b);
    law_whole_numbers_are_exact(f, a * b);
    assert((a * one) * (b * one) == ((a * b) * one) * one) by (nonlinear_arith);
    lemma_nearest_of_units(f, one, f.whole(a * b));
}

/// Small whole numbers are added exactly.
proof fn lemma_whole_sum(a: nat, b: nat)
    requires
        a + b < 0x100_0000,
    ensures
        Format::Single.sum(
            Format::Single.whole(a) as u64,
            Format::Single.whole(b) as u64,
        ) == Format::Single.whole(a + b),
{
    let f: Format = Format::Single;
    let one: nat = pow2(149);
    lemma_pow2_pos(149);
    law_whole_numbers_are_exact(f, a);
    law_whole_numbers_are_exact(f, b);
    law_whole_numbers_are_exact(f, a + b);
    assert(a * one + b * one == (a + b) * one) by (nonlinear_arith);
    lemma_nearest_of_units(f, 1, f.whole(a + b));
    if a + b == 0 {
        assert((a + b) * one == 0) by (nonlinear_arith)
            requires
                a + b == 0,
        ;
        assert(f.units(0) == 0);
        lemma_whole_is(0, 0);
    } else {
        assert((a + b) * one > 0) by (nonlinear_arith)
            requires
                a + b > 0,
                one > 0,
        ;
    }
}

/// The constants stand for the numbers of seconds in a minute and in an hour.
proof fn lemma_minute_and_hour()
    ensures
        Format::Single.whole(60) == SIXTY,
        Format::Single.whole(3600) == HOUR,
{
    let f: Format = Format::Single;
    lemma2_to64();
    lemma_units_of_parts(f, 131, 0xf0_0000);
    lemma_units_of_parts(f, 137, 0xe1_0000);
    lemma_pow2_adds(18, 131);
    lemma_pow2_adds(12, 137);
    assert(0xf0_0000 * pow2(131) == 60 * pow2(149)) by (nonlinear_arith)
        requires
            pow2(149) == 0x4_0000 * pow2(131),
    ;
    assert(0xe1_0000 * pow2(137) == 3600 * pow2(149)) by (nonlinear_arith)
        requires
            pow2(149) == 0x1000 * pow2(137),
    ;
    lemma_whole_is(SIXTY as nat, 60);
    lemma_whole_is(HOUR as nat, 3600);
}

/// Minutes and seconds are put together exactly.
proof fn lemma_minutes_sum(m: nat, s: nat)
    requires
        m < 60,
        s < 60,
    ensures
        minutes_and_seconds(m, Format::Single.whole(s) as u64) == Format::Single.whole(60 * m + s),
{
    let f: Format = Format::Single;
    lemma_minute_and_hour();
    lemma_whole_product(60, m);
    lemma_whole_sum(60 * m, s);
}

/// Hours, minutes and seconds are put together exactly, as long as they are not too many.
proof fn lemma_hours_sum(h: nat, m: nat, s: nat)
    requires
        3600 * h + 60 * m + s < 0x100_0000,
    ensures
        hours_minutes_and_seconds(h, m, Format::Single.whole(s) as u64) == Format::Single.whole(
            3600 * h + 60 * m + s,
        ),
{
    let f: Format = Format::Single;
    lemma_minute_and_hour();
    lemma_whole_product(3600, h);
    lemma_whole_product(60, m);
    lemma_whole_sum(3600 * h, 60 * m);
    lemma_whole_sum(3600 * h + 60 * m, s);
}

/// The fields of a time as it is shown.
proof fn lemma_shown_fields(seconds: nat)
    ensures
        ({
            let text = time_text(seconds);
            let ss = padded_left(decimal(seconds % 60), 2, '0');
            let m = seconds / 60 % 60;
            fields(trimmed_end(trimmed_start(text))) == (if seconds / 3600 > 0 {
                seq![decimal(seconds / 3600), padded_left(decimal(m), 2, '0'), ss]
            } else {
                seq![decimal(m), ss]
            })
        }),
{
    let m: nat = seconds / 60 % 60;
    let h: nat = seconds / 3600;
    let text: Seq<char> = time_text(seconds);
    let ss: Seq<char> = padded_left(decimal(seconds % 60), 2, '0');
    lemma_two_digits(seconds % 60);
    assert(is_digit(ss[1]));
    if h > 0 {
        let mm: Seq<char> = padded_left(decimal(m), 2, '0');
        let hh: Seq<char> = decimal(h);
        law_decimal_reads_back(h);
        lemma_two_digits(m);
        lemma_fields(hh, hh);
        lemma_fields(hh, mm);
        lemma_fields(hh + seq![':'] + mm, ss);
        assert(text =~= hh + seq![':'] + mm + seq![':'] + ss);
        assert(is_digit(hh[0]));
        lemma_trimmed(text);
        assert(seq![hh].push(mm).push(ss) =~= seq![hh, mm, ss]);
    } else {
        let mm: Seq<char> = decimal(m);
        law_decimal_reads_back(m);
        lemma_fields(mm, mm);
        lemma_fields(mm, ss);
        assert(text =~= mm + seq![':'] + ss);
        assert(is_digit(mm[0]));
        lemma_trimmed(text);
        assert(seq![mm].push(ss) =~= seq![mm, ss]);
    }
}

/// A text with a field of minutes and one of seconds.
proof fn lemma_two_fields_read(text: Seq<char>, mm: Seq<char>, ss: Seq<char>, m: nat, s: nat)
    requires
        fields(trimmed_end(trimmed_start(text))) == seq![mm, ss],
        minutes_value(mm) == Ok::<nat, TimeError>(m),
        seconds_value(ss) == Ok::<u64, TimeError>(Format::Single.whole(s) as u64),
        m < 60,
        s < 60,
    ensures
        time_value(text) == Ok::<nat, TimeError>(Format::Single.whole(60 * m + s)),
{
    lemma_minutes_sum(m, s);
}

/// A text with fields of hours, minutes and seconds.
proof fn lemma_three_fields_read(
    text: Seq<char>,
    hh: Seq<char>,
    mm: Seq<char>,
    ss: Seq<char>,
    h: nat,
    m: nat,
    s: nat,
)
    requires
        fields(trimmed_end(trimmed_start(text))) == seq![hh, mm, ss],
        hours_value(hh) == Ok::<nat, TimeError>(h),
        minutes_value(mm) == Ok::<nat, TimeError>(m),
        seconds_value(ss) == Ok::<u64, TimeError>(Format::Single.whole(s) as u64),
        3600 * h + 60 * m + s < 0x100_0000,
    ensures
        time_value(text) == Ok::<nat, TimeError>(Format::Single.whole(3600 * h + 60 * m + s)),
{
    lemma_hours_sum(h, m, s);
}

/// A time as it is shown, given as a time stamp, denotes the same time, up to the number of
/// seconds from which on not every one is a number of the format.
pub proof fn law_shown_time_reads_back(seconds: nat)
    requires
        seconds < 0x100_0000,
    ensures
        time_value(time_text(seconds)) == Ok::<nat, TimeError>(Format::Single.whole(seconds)),
{
    let s: nat = seconds % 60;
    let m: nat = seconds / 60 % 60;
    let h: nat = seconds / 3600;
    let text: Seq<char> = time_text(seconds);
    let ss: Seq<char> = padded_left(decimal(s), 2, '0');
    lemma_two_digits(s);
    lemma_seconds_read(ss);
    lemma_shown_fields(seconds);
    if h > 0 {
        let mm: Seq<char> = padded_left(decimal(m), 2, '0');
        law_decimal_reads_back(h);
        lemma_two_digits(m);
        lemma_whole_read(decimal(h), usize::MAX as nat);
        lemma_whole_read(mm, 255);
        assert(3600 * h + 60 * m + s == seconds);
        lemma_three_fields_read(text, decimal(h), mm, ss, h, m, s);
    } else {
        law_decimal_reads_back(m);
        lemma_whole_read(decimal(m), 255);
        assert(60 * m + s == seconds);
        lemma_two_fields_read(text, decimal(m), ss, m, s);
    }
}

} // verus!
