use elastic_player::controller::ONE;
use elastic_player::float_model::Format;
use elastic_player::input::{
    TEMPO_CEILING, TEMPO_DOWN, TEMPO_FLOOR, TEMPO_UP, VOLUME_CEILING, VOLUME_DOWN, VOLUME_UP,
};
use elastic_player::text::HUNDRED;
use elastic_player::timestamp::{HOUR, SIXTY};

struct Patterns {
    state: u64,
}

impl Patterns {
    fn new(seed: u64) -> Patterns {
        Patterns { state: seed }
    }

    fn next(&mut self) -> u64 {
        self.state = self
            .state
            .wrapping_mul(6364136223846793005)
            .wrapping_add(1442695040888963407);
        let x = self.state;
        (x ^ (x >> 29)).wrapping_mul(0x9e37_79b9_7f4a_7c15) ^ (x >> 7)
    }
}

fn same_double(bits: u64, expected: f64) {
    if expected.is_nan() {
        assert!(f64::from_bits(bits).is_nan());
    } else {
        assert_eq!(bits, expected.to_bits(), "{expected}");
    }
}

fn same_single(bits: u64, expected: f32) {
    assert!(bits <= u32::MAX as u64);
    if expected.is_nan() {
        assert!(f32::from_bits(bits as u32).is_nan());
    } else {
        assert_eq!(bits, expected.to_bits() as u64, "{expected}");
    }
}

fn check_doubles(a: u64, b: u64) {
    let f = Format::Double;
    let (x, y) = (f64::from_bits(a), f64::from_bits(b));
    same_double(f.add(a, b), x + y);
    same_double(f.mul(a, b), x * y);
    same_double(f.div(a, b), x / y);
    assert_eq!(f.lt(a, b), x < y);
}

fn check_singles(a: u32, b: u32) {
    let f = Format::Single;
    let (x, y) = (f32::from_bits(a), f32::from_bits(b));
    same_single(f.add(a as u64, b as u64), x + y);
    same_single(f.mul(a as u64, b as u64), x * y);
    same_single(f.div(a as u64, b as u64), x / y);
    assert_eq!(f.lt(a as u64, b as u64), x < y);
}

const DOUBLES: [f64; 22] = [
    0.0,
    -0.0,
    1.0,
    -1.0,
    0.05,
    0.1,
    0.15,
    2.0,
    1.0 / 3.0,
    f64::MAX,
    f64::MIN,
    f64::MIN_POSITIVE,
    5e-324,
    -5e-324,
    2.2250738585072009e-308,
    9007199254740992.0,
    9007199254740993.0,
    1e300,
    1e-300,
    f64::INFINITY,
    f64::NEG_INFINITY,
    f64::NAN,
];

#[test]
fn special_doubles_agree_with_the_machine() {
    for a in DOUBLES {
        for b in DOUBLES {
            check_doubles(a.to_bits(), b.to_bits());
        }
    }
}

#[test]
fn arbitrary_doubles_agree_with_the_machine() {
    let mut patterns = Patterns::new(1);
    for _ in 0..40_000 {
        let a = patterns.next();
        let b = patterns.next();
        check_doubles(a, b);
        // numbers of similar size, where sums cancel
        let c = (a & !0x7ff0_0000_0000_0000) | ((1020 + b % 7) << 52);
        let d = (b & !0x7ff0_0000_0000_0000) | ((1020 + a % 7) << 52);
        check_doubles(c, d);
        // close to the smallest numbers
        check_doubles(a & 0x801f_ffff_ffff_ffff, b & 0x801f_ffff_ffff_ffff);
        check_doubles(a & 0x801f_ffff_ffff_ffff, d);
    }
}

#[test]
fn arbitrary_singles_agree_with_the_machine() {
    let mut patterns = Patterns::new(2);
    for _ in 0..40_000 {
        let a = patterns.next() as u32;
        let b = (patterns.next() >> 32) as u32;
        check_singles(a, b);
        let c = (a & !0x7f80_0000) | ((124 + b % 7) << 23);
        let d = (b & !0x7f80_0000) | ((124 + a % 7) << 23);
        check_singles(c, d);
        check_singles(a & 0x80ff_ffff, b & 0x80ff_ffff);
        check_singles(a & 0x80ff_ffff, d);
    }
}

#[test]
fn whole_numbers_agree_with_the_machine() {
    let mut patterns = Patterns::new(3);
    for i in 0..20_000u64 {
        let n = patterns.next() >> (i % 64);
        assert_eq!(Format::Double.from_whole(n), (n as f64).to_bits());
        assert_eq!(Format::Single.from_whole(n), (n as f32).to_bits() as u64);
    }
    assert_eq!(Format::Double.from_whole(u64::MAX), (u64::MAX as f64).to_bits());
    assert_eq!(Format::Double.from_whole(0), 0);
}

#[test]
fn small_whole_numbers_are_exact() {
    for n in (0u64..0x100_0000).step_by(4099) {
        assert_eq!(f32::from_bits(Format::Single.from_whole(n) as u32) as u64, n);
    }
    let n = (1u64 << 53) - 1;
    assert_eq!(f64::from_bits(Format::Double.from_whole(n)) as u64, n);
}

#[test]
fn rounding_is_off_by_at_most_half_of_the_last_place() {
    // one third: the nearest number is below it by a third of the last place
    let third = Format::Double.div(ONE, 3f64.to_bits());
    assert_eq!(third, 0x3fd5_5555_5555_5555);
    // a tie goes to the even one
    let one_and_half_place = Format::Double.add(ONE, (f64::EPSILON / 2.0).to_bits());
    assert_eq!(one_and_half_place, ONE);
    let odd = ONE + 1;
    assert_eq!(
        Format::Double.add(odd, (f64::EPSILON / 2.0).to_bits()),
        ONE + 2
    );
}

#[test]
fn constants_stand_for_what_they_say() {
    assert_eq!(ONE, 1f64.to_bits());
    assert_eq!(TEMPO_CEILING, 2f64.to_bits());
    assert_eq!(TEMPO_FLOOR, 0.15f64.to_bits());
    assert_eq!(TEMPO_UP, 0.05f64.to_bits());
    assert_eq!(TEMPO_DOWN, (-0.05f64).to_bits());
    assert_eq!(VOLUME_CEILING, 2f32.to_bits());
    assert_eq!(VOLUME_UP, 0.1f32.to_bits());
    assert_eq!(VOLUME_DOWN, (-0.1f32).to_bits());
    assert_eq!(HUNDRED, 100f32.to_bits());
    assert_eq!(SIXTY, 60f32.to_bits() as u64);
    assert_eq!(HOUR, 3600f32.to_bits() as u64);
}

#[test]
fn signs_and_magnitudes() {
    let f = Format::Double;
    assert_eq!(f.magnitude_of((-2.5f64).to_bits()), 2.5f64.to_bits());
    assert_eq!(f.with_sign(true, 2.5f64.to_bits()), (-2.5f64).to_bits());
    assert_eq!(f.infinity_bits(), f64::INFINITY.to_bits());
    assert!(f64::from_bits(f.nan_bits()).is_nan());
    assert_eq!(
        Format::Single.infinity_bits(),
        f32::INFINITY.to_bits() as u64
    );
    assert!(f32::from_bits(Format::Single.nan_bits() as u32).is_nan());
}
