use elastic_player::controller::{ElasticController, PitchTranspose, TrackMetadata};
use elastic_player::time::Duration;
use std::time::Duration as StdDuration;

fn pitch(semitones: i8) -> PitchTranspose {
    PitchTranspose::new(semitones).unwrap()
}

fn span(secs: u64, nanos: u32) -> Duration {
    Duration { secs, nanos }
}

fn is_same(ours: Option<Duration>, theirs: Option<StdDuration>) {
    match (ours, theirs) {
        (None, None) => {}
        (Some(a), Some(b)) => {
            assert_eq!((a.secs, a.nanos), (b.as_secs(), b.subsec_nanos()));
        }
        (a, b) => panic!("{a:?} is not {b:?}"),
    }
}

fn check(secs: u64, nanos: u32, factor: f64) {
    let ours = span(secs, nanos);
    let theirs = StdDuration::new(secs, nanos);
    assert_eq!(ours.to_seconds(), theirs.as_secs_f64().to_bits());
    is_same(
        ours.try_mul(factor.to_bits()),
        StdDuration::try_from_secs_f64(factor * theirs.as_secs_f64()).ok(),
    );
    is_same(
        ours.try_div(factor.to_bits()),
        StdDuration::try_from_secs_f64(theirs.as_secs_f64() / factor).ok(),
    );
    is_same(
        Duration::from_seconds(factor.to_bits()),
        StdDuration::try_from_secs_f64(factor).ok(),
    );
}

#[test]
fn scaling_agrees_with_the_standard_library() {
    let spans = [
        (0, 0),
        (0, 1),
        (0, 999_999_999),
        (1, 0),
        (59, 500_000_001),
        (215, 123_456_789),
        (3_600, 7),
        (8_388_607, 999_999_999),
        (8_388_609, 3),
        (9_007_199_254_740_993, 999_999_999),
        (u64::MAX, 0),
        (u64::MAX, 999_999_999),
    ];
    let factors = [
        0.0,
        -0.0,
        1.0,
        0.05,
        0.1,
        0.15,
        0.5,
        0.95,
        1.05,
        1.0 / 3.0,
        2.0,
        2.05,
        1e-9,
        4.9e-10,
        5e-10,
        1.5e-9,
        1e19,
        1.8446744073709552e19,
        1e300,
        5e-324,
        -1.0,
        -5e-324,
        f64::INFINITY,
        f64::NEG_INFINITY,
        f64::NAN,
    ];
    for (secs, nanos) in spans {
        for factor in factors {
            check(secs, nanos, factor);
        }
    }
}

#[test]
fn scaling_arbitrary_spans_agrees_with_the_standard_library() {
    let mut x: u64 = 7;
    for i in 0..30_000u64 {
        x = x.wrapping_mul(6364136223846793005).wrapping_add(1442695040888963407);
        let secs = (x >> 11) >> (i % 53);
        let nanos = ((x >> 20) % 1_000_000_000) as u32;
        let factor = 0.05 * (1 + x % 45) as f64;
        check(secs, nanos, factor);
        let exponent = 960 + (x >> 53) % 128;
        let arbitrary = f64::from_bits((x & 0x800f_ffff_ffff_ffff) | (exponent << 52));
        check(secs, nanos, arbitrary);
    }
}

#[test]
fn spans_add_subtract_and_compare() {
    assert_eq!(Duration::new(1, 2_500_000_000), span(3, 500_000_000));
    assert_eq!(Duration::from_secs(5), span(5, 0));
    assert_eq!(Duration::zero(), span(0, 0));
    assert_eq!(
        span(1, 600_000_000).plus(span(2, 700_000_000)),
        span(4, 300_000_000)
    );
    assert_eq!(span(1, 1).plus(span(2, 2)), span(3, 3));
    assert_eq!(
        span(4, 300_000_000).saturating_sub(span(2, 700_000_000)),
        span(1, 600_000_000)
    );
    assert_eq!(span(3, 0).saturating_sub(span(5, 0)), span(0, 0));
    assert!(span(3, 1).at_least(span(3, 1)));
    assert!(!span(3, 1).at_least(span(3, 2)));
    assert!(span(4, 0).at_least(span(3, 2)));
    assert_eq!(span(3, 1).min(span(3, 0)), span(3, 0));
    assert_eq!(span(3, 1).min(span(4, 0)), span(3, 1));
}

#[test]
fn double_tempo_takes_half_the_time() {
    let fast = ElasticController::new(2f64.to_bits(), pitch(0));
    let slow = ElasticController::new(0.5f64.to_bits(), pitch(0));
    let length = span(215, 500_000_000);
    assert_eq!(fast.duration_at_tempo(length), span(107, 750_000_000));
    assert_eq!(slow.duration_at_tempo(length), span(431, 0));
    assert_eq!(fast.duration_from_tempo(length), span(431, 0));
    assert_eq!(slow.duration_from_tempo(length), span(107, 750_000_000));
    assert_eq!(fast.time_ratio(), 0.5f64.to_bits());
    assert_eq!(slow.time_ratio(), 2f64.to_bits());
}

#[test]
fn original_tempo_changes_nothing() {
    let controller = ElasticController::new(1f64.to_bits(), pitch(0));
    for (secs, nanos) in [(0, 0), (0, 1), (215, 123_456_789), (8_388_607, 999_999_999)] {
        let d = span(secs, nanos);
        assert_eq!(controller.duration_at_tempo(d), d);
        assert_eq!(controller.duration_from_tempo(d), d);
    }
}

#[test]
fn there_and_back_is_close() {
    for tempo in [0.1f64, 0.15, 0.7, 1.1, 1.95, 2.05] {
        let controller = ElasticController::new(tempo.to_bits(), pitch(0));
        let d = span(215, 123_456_789);
        let back = controller.duration_from_tempo(controller.duration_at_tempo(d));
        let off = if back.at_least(d) {
            back.saturating_sub(d)
        } else {
            d.saturating_sub(back)
        };
        assert_eq!(off.secs, 0);
        assert!(off.nanos <= 1, "{tempo}: {off:?}");
    }
}

#[test]
fn a_day_there_and_back_is_a_nanosecond_off_at_most() {
    let mut x: u64 = 3;
    for i in 0..20_000u64 {
        x = x.wrapping_mul(6364136223846793005).wrapping_add(1442695040888963407);
        let d = span((x >> 40) % 86_400, ((x >> 7) % 1_000_000_000) as u32);
        let tempo = if i % 2 == 0 {
            0.1 + 1.95 * ((x >> 11) as f64 / (1u64 << 53) as f64)
        } else {
            0.05 * (2 + x % 40) as f64
        };
        let controller = ElasticController::new(tempo.to_bits(), pitch(0));
        let back = controller.duration_from_tempo(controller.duration_at_tempo(d));
        let off = back.saturating_sub(d).plus(d.saturating_sub(back));
        assert!(off.secs == 0 && off.nanos <= 1, "{tempo} {d:?} {back:?}");
    }
}

#[test]
fn whole_seconds_come_back_at_half_and_double_tempo() {
    for tempo in [0.5f64, 1.0, 2.0] {
        let controller = ElasticController::new(tempo.to_bits(), pitch(0));
        for secs in [0, 1, 2, 59, 86_399, 86_400, (1 << 51) - 1] {
            let d = span(secs, 0);
            let at_tempo = controller.duration_at_tempo(d);
            assert_eq!(controller.duration_from_tempo(at_tempo), d);
        }
    }
}

#[test]
fn later_stays_later_and_faster_is_shorter() {
    let slow = ElasticController::new(0.85f64.to_bits(), pitch(0));
    let fast = ElasticController::new(1.15f64.to_bits(), pitch(0));
    let (a, b) = (span(99, 999_999_999), span(100, 0));
    assert!(slow
        .duration_from_tempo(b)
        .at_least(slow.duration_from_tempo(a)));
    assert!(slow
        .duration_at_tempo(b)
        .at_least(fast.duration_at_tempo(b)));
    assert!(slow
        .duration_at_tempo(b)
        .at_least(slow.duration_at_tempo(a)));
}

#[test]
fn a_tempo_of_zero_has_no_length() {
    let stopped = ElasticController::new(0, pitch(0));
    assert!(stopped.try_duration_at_tempo(span(1, 0)).is_none());
    assert_eq!(stopped.try_duration_from_tempo(span(1, 0)), Some(span(0, 0)));
    let backward = ElasticController::new((-1f64).to_bits(), pitch(0));
    assert!(backward.try_duration_at_tempo(span(1, 0)).is_none());
    assert!(backward.try_duration_from_tempo(span(1, 0)).is_none());
}

#[test]
fn controller_keeps_what_it_is_given() {
    let mut controller = ElasticController::new(1f64.to_bits(), pitch(3));
    assert_eq!(controller.pitch().get(), 3);
    controller.set_pitch(pitch(-12));
    assert_eq!(controller.pitch().get(), -12);
    assert_eq!(controller.tempo(), 1f64.to_bits());
    controller.set_tempo(1.25f64.to_bits());
    assert_eq!(controller.tempo(), 1.25f64.to_bits());
    assert_eq!(controller.pitch().get(), -12);
}

#[test]
fn pitch_stays_within_an_octave() {
    for semitones in i8::MIN..=i8::MAX {
        let transpose = PitchTranspose::new(semitones);
        if (-12..=12).contains(&semitones) {
            assert_eq!(transpose.unwrap().get(), semitones);
        } else {
            assert!(transpose.is_none());
        }
    }
    assert_eq!(PitchTranspose::lowest().get(), -12);
    assert_eq!(PitchTranspose::highest().get(), 12);
    assert_eq!(pitch(4).raised().get(), 5);
    assert_eq!(pitch(4).lowered().get(), 3);
    assert_eq!(pitch(4).raised().lowered(), pitch(4));
}

#[test]
fn track_length_follows_the_tempo() {
    let mut track = TrackMetadata {
        length: span(300, 0),
        title: "song".to_string(),
        controller: ElasticController::new(1f64.to_bits(), pitch(0)),
        loop_track: false,
    };
    assert_eq!(track.length_with_tempo(), span(300, 0));
    track.controller.set_tempo(1.5f64.to_bits());
    assert_eq!(track.length_with_tempo(), span(200, 0));
}
