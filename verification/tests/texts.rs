use elastic_player::digits::{compare, digits_of, digits_text, times_plus};
use elastic_player::tempo_text::format_fixed;
use elastic_player::text::{
    decimal_text, format_pitch, format_time, truncate_with_ellipsis, volume_percent,
};

#[test]
fn times_have_minutes_and_seconds() {
    assert_eq!(format_time(0), "0:00");
    assert_eq!(format_time(9), "0:09");
    assert_eq!(format_time(61), "1:01");
    assert_eq!(format_time(599), "9:59");
    assert_eq!(format_time(3599), "59:59");
}

#[test]
fn times_of_an_hour_have_three_fields() {
    assert_eq!(format_time(3600), "1:00:00");
    assert_eq!(format_time(3661), "1:01:01");
    assert_eq!(format_time(7325), "2:02:05");
    assert_eq!(format_time(359_999), "99:59:59");
    assert_eq!(format_time(u64::MAX), "5124095576030431:00:15");
}

#[test]
fn numbers_in_decimal() {
    for n in [0, 9, 10, 99, 100, 12345, u64::MAX] {
        assert_eq!(decimal_text(n), n.to_string());
    }
}

#[test]
fn long_numbers_in_decimal() {
    let mut digits = digits_of(u64::MAX);
    assert_eq!(digits_text(&digits), u64::MAX.to_string());
    digits = times_plus(&digits, 0xffff_ffff, 7);
    let expected = u64::MAX as u128 * 0xffff_ffff + 7;
    assert_eq!(digits_text(&digits), expected.to_string());
    assert_eq!(compare(&digits, &digits), (false, true));
    assert_eq!(compare(&digits_of(7), &digits), (true, false));
    assert_eq!(compare(&digits, &digits_of(7)), (false, false));
}

#[test]
fn pitch_has_a_sign_and_three_characters() {
    for semitones in -12i8..=12 {
        assert_eq!(format_pitch(semitones), format!("{semitones:<+3}"));
    }
    assert_eq!(format_pitch(0), "+0 ");
    assert_eq!(format_pitch(-12), "-12");
}

#[test]
fn tempo_has_two_digits_after_the_point() {
    let numbers = [
        0.0,
        -0.0,
        1.0,
        0.05,
        0.1,
        0.15,
        0.125,
        0.375,
        0.005,
        0.015,
        0.995,
        1.005,
        2.675,
        99.994999,
        1e15,
        123456789012345680.0,
        1.7976931348623157e308,
        5e-324,
        -1.25,
        f64::INFINITY,
        f64::NEG_INFINITY,
        f64::NAN,
    ];
    for x in numbers {
        assert_eq!(format_fixed(x.to_bits()), format!("{x:.2}"));
    }
}

#[test]
fn arbitrary_tempos_in_decimal() {
    let mut x: u64 = 5;
    for i in 0..5_000u64 {
        x = x.wrapping_mul(6364136223846793005).wrapping_add(1442695040888963407);
        let near_one = f64::from_bits((x >> 12) | ((1000 + i % 60) << 52));
        assert_eq!(format_fixed(near_one.to_bits()), format!("{near_one:.2}"));
        let quarters = (x >> 40) as f64 / 800.0;
        assert_eq!(format_fixed(quarters.to_bits()), format!("{quarters:.2}"));
    }
    let mut tempo = 1f64;
    while tempo < 2.0 {
        tempo += 0.05;
        assert_eq!(format_fixed(tempo.to_bits()), format!("{tempo:.2}"));
    }
}

#[test]
fn volume_in_percent() {
    let mut volumes = vec![
        0.0f32, -0.0, 0.004, 0.005, 0.015, 0.1, 0.5, 1.0, 1.005, 2.0, 2.1, 2.544, 2.545, 2.55, 3.0,
        1e20, 1e-20, -0.1, -5.0,
    ];
    volumes.extend([f32::INFINITY, f32::NEG_INFINITY, f32::NAN, f32::MAX, f32::MIN_POSITIVE]);
    let mut volume = 1f32;
    while volume > 0.0 {
        volumes.push(volume);
        volume -= 0.1;
    }
    for i in 0..3_000u32 {
        volumes.push(i as f32 / 1000.0);
    }
    for v in volumes {
        assert_eq!(volume_percent(v.to_bits()), (v * 100.0).round() as u8, "{v}");
    }
}

#[test]
fn texts_that_fit_stay_whole() {
    assert_eq!(truncate_with_ellipsis("song", 4), "song");
    assert_eq!(truncate_with_ellipsis("song", 10), "song");
    assert_eq!(truncate_with_ellipsis("", 0), "");
}

#[test]
fn texts_that_do_not_fit_are_cut() {
    assert_eq!(truncate_with_ellipsis("long song", 5), "long…");
    assert_eq!(truncate_with_ellipsis("song", 3), "so…");
    assert_eq!(truncate_with_ellipsis("song", 1), "…");
    assert_eq!(truncate_with_ellipsis("song", 0), "");
}

#[test]
fn wide_characters_take_two_cells() {
    // six cells in three characters
    assert_eq!(truncate_with_ellipsis("練習曲", 6), "練習曲");
    assert_eq!(truncate_with_ellipsis("練習曲", 5), "練習…");
    assert_eq!(truncate_with_ellipsis("練習曲", 4), "練…");
    assert_eq!(truncate_with_ellipsis("練習曲", 3), "練…");
    assert_eq!(truncate_with_ellipsis("練習曲", 2), "…");
    assert_eq!(truncate_with_ellipsis("練習曲", 1), "…");
    assert_eq!(truncate_with_ellipsis("練習曲", 0), "");
}
