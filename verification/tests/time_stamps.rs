use elastic_player::text::format_time;
use elastic_player::timestamp::{parse_time, TimeError};

fn seconds(text: &str) -> f32 {
    f32::from_bits(parse_time(text).unwrap())
}

#[test]
fn plain_seconds() {
    assert_eq!(seconds("0"), 0.0);
    assert_eq!(seconds("1.5"), 1.5);
    assert_eq!(seconds("90"), 90.0);
    assert_eq!(seconds("12.345"), 12.345);
}

#[test]
fn minutes_and_seconds() {
    assert_eq!(seconds("1:30"), 90.0);
    assert_eq!(seconds("0:05.25"), 5.25);
    assert_eq!(seconds("59:59.999"), 60.0 * 59.0 + 59.999);
    assert_eq!(seconds("2:75"), 195.0);
}

#[test]
fn hours_minutes_and_seconds() {
    assert_eq!(seconds("1:02:03"), 3723.0);
    assert_eq!(seconds("01:02:03.5"), 3723.5);
    assert_eq!(seconds("100:00:00"), 360000.0);
    assert_eq!(seconds("+1:+2:+3"), 3723.0);
    assert_eq!(
        seconds("18446744073709551615:00:00"),
        3600.0 * u64::MAX as f32
    );
}

#[test]
fn white_space_around_is_ignored() {
    assert_eq!(seconds(" 1:30 "), 90.0);
    assert_eq!(seconds("\t\u{a0}\u{3000}2.5\r\n\u{2028}"), 2.5);
    assert_eq!(parse_time("1: 30"), Err(TimeError::InvalidSeconds));
    assert_eq!(parse_time("1 :30"), Err(TimeError::InvalidMinutes));
}

#[test]
fn seconds_are_read_like_numbers() {
    let texts = [
        "0.1", ".5", "5.", "1e3", "1E3", "1e-3", "+2.5", "1.e2", "0x10", "1_000", "", ".", "e5", "+",
        "1e", "1e+", "--1", "16777217", "16777219", "0.000001", "1e-45", "7e-46", "7.1e-46", "1e-46",
        "3.4028235e38", "3.4028236e38", "3.5e38", "1e39", "1e400", "1e-400", "inf", "INF",
        "infinity", "Infinity", "+inf", "infin", "1.17549435e-38", "1.1754942e-38",
        "0.30000001192092896", "8.5899345e9", "123456789012345678901234567890",
        "1e99999999999999999999999999", "0e99999999999999999999999999",
        "1e-99999999999999999999999999", "9007199254740993", "0.00000000000000000000000000000000000001",
        "1.00000005960464477539062", "1.000000059604644775390625", "1.00000005960464477539063", "٣",
    ];
    for text in texts {
        match text.parse::<f32>() {
            Ok(x) => assert_eq!(parse_time(text), Ok(x.to_bits()), "{text}"),
            Err(_) => assert_eq!(parse_time(text), Err(TimeError::InvalidSeconds), "{text}"),
        }
    }
}

#[test]
fn arbitrary_decimals_are_read_like_numbers() {
    let mut x: u64 = 11;
    for i in 0..2_000u64 {
        x = x.wrapping_mul(6364136223846793005).wrapping_add(1442695040888963407);
        let text = match i % 4 {
            0 => format!("{}.{:06}", (x >> 48) % 6000, (x >> 20) % 1_000_000),
            1 => format!("{}e{}", x >> 20, (x % 90) as i64 - 60),
            2 => format!("{}", f32::from_bits((x >> 33) as u32 & 0x7f7f_ffff)),
            _ => format!("0.{:020}e{}", x, (x >> 59) as i64 - 16),
        };
        let expected = text.parse::<f32>().unwrap();
        assert_eq!(parse_time(&text), Ok(expected.to_bits()), "{text}");
    }
}

#[test]
fn negative_seconds_are_refused() {
    assert_eq!(parse_time("-1"), Err(TimeError::NegativeSeconds));
    assert_eq!(parse_time("1:-1"), Err(TimeError::NegativeSeconds));
    assert_eq!(parse_time("nan"), Err(TimeError::NegativeSeconds));
    assert_eq!(parse_time("-NaN"), Err(TimeError::NegativeSeconds));
    assert_eq!(parse_time("-inf"), Err(TimeError::NegativeSeconds));
    assert_eq!(parse_time("-0.0"), Ok((-0.0f32).to_bits()));
}

#[test]
fn sixty_minutes_are_too_many() {
    assert_eq!(parse_time("60:00"), Err(TimeError::MinutesTooLarge));
    assert_eq!(parse_time("255:00"), Err(TimeError::MinutesTooLarge));
    assert_eq!(parse_time("1:60:00"), Err(TimeError::MinutesTooLarge));
    assert_eq!(parse_time("256:00"), Err(TimeError::InvalidMinutes));
    assert_eq!(parse_time("-1:00"), Err(TimeError::InvalidMinutes));
    assert_eq!(parse_time(":00"), Err(TimeError::InvalidMinutes));
}

#[test]
fn other_errors() {
    assert_eq!(parse_time("x:00:00"), Err(TimeError::InvalidHours));
    assert_eq!(
        parse_time("18446744073709551616:00:00"),
        Err(TimeError::InvalidHours)
    );
    assert_eq!(parse_time("1:2:3:4"), Err(TimeError::InvalidTimestamp));
    assert_eq!(parse_time("x:x:x"), Err(TimeError::InvalidHours));
    assert_eq!(parse_time("1:x:x"), Err(TimeError::InvalidMinutes));
}

#[test]
fn errors_have_messages() {
    let messages = [
        (TimeError::InvalidTimestamp, "Invalid timestamp"),
        (TimeError::InvalidHours, "Invalid hours value"),
        (TimeError::InvalidMinutes, "Invalid minutes value"),
        (TimeError::MinutesTooLarge, "Minutes must be less than 60"),
        (TimeError::InvalidSeconds, "Invalid seconds value"),
        (TimeError::NegativeSeconds, "Seconds must be positive"),
    ];
    for (error, message) in messages {
        assert_eq!(error.message(), message);
    }
}

#[test]
fn shown_times_read_back() {
    for n in (0..0x100_0000).step_by(9973) {
        assert_eq!(seconds(&format_time(n)), n as f32);
    }
    assert_eq!(seconds(&format_time(0xff_ffff)), 16777215.0);
}
