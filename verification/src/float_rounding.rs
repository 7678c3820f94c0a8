//! Rounding an exact result to the nearest number of a format.

use crate::float_model::{
    exponent_part, lemma_hidden_is_power, lemma_nearest_is, lemma_parts, lemma_units_increase,
    lemma_units_of_parts, significand_part, Format,
};
use vstd::arithmetic::power2::{
    lemma2_to64, lemma_pow2_adds, lemma_pow2_pos, lemma_pow2_strictly_increases, lemma_pow2_unfold,
    pow2,
};
use vstd::prelude::*;

verus! {

/// Powers of two grow with their exponent.
pub proof fn lemma_pow2_ordered(a: nat, b: nat)
    requires
        a <= b,
    ensures
        pow2(a) <= pow2(b),
{
    if a < b {
        lemma_pow2_strictly_increases(a, b);
    }
}

/// Two to the `s`.
pub fn two_to(s: u32) -> (p: u128)
    requires
        s <= 127,
    ensures
        p == pow2(s as nat),
{
    let mut p: u128 = 1;
    let mut i: u32 = 0;
    proof {
        lemma2_to64();
        lemma2_to127();
    }
    while i < s
        invariant
            i <= s <= 127,
            p == pow2(i as nat),
            pow2(127) == 0x8000_0000_0000_0000_0000_0000_0000_0000,
        decreases s - i,
    {
        proof {
            lemma_pow2_unfold((i + 1) as nat);
            lemma_pow2_ordered((i + 1) as nat, 127);
        }
        p = p * 2;
        i = i + 1;
    }
    p
}

/// Two to the 127, written out.
pub proof fn lemma2_to127()
    ensures
        pow2(127) == 0x8000_0000_0000_0000_0000_0000_0000_0000,
{
    lemma2_to64();
    vstd::arithmetic::power2::lemma2_to64_rest();
    lemma_pow2_adds(64, 63);
    assert(0x1_0000_0000_0000_0000 * 0x8000_0000_0000_0000
        == 0x8000_0000_0000_0000_0000_0000_0000_0000);
}

/// The number of binary digits of `m`.
pub fn bit_length(m: u128) -> (l: u32)
    requires
        0 < m < 0x8000_0000_0000_0000_0000_0000_0000_0000,
    ensures
        1 <= l <= 127,
        pow2((l - 1) as nat) <= m < pow2(l as nat),
{
    let mut l: u32 = 1;
    let mut p: u128 = 2;
    proof {
        lemma2_to64();
        lemma2_to127();
    }
    while l < 127 && p <= m
        invariant
            1 <= l <= 127,
            l < 127 ==> p == pow2(l as nat),
            pow2((l - 1) as nat) <= m < pow2(127),
            pow2(127) == 0x8000_0000_0000_0000_0000_0000_0000_0000,
        decreases 127 - l,
    {
        proof {
            lemma_pow2_unfold((l + 1) as nat);
            lemma_pow2_ordered((l + 1) as nat, 127);
        }
        l = l + 1;
        if l < 127 {
            p = p * 2;
        }
    }
    l
}

impl Format {
    /// Exponent and significand of a pattern without its sign.
    pub fn split(self, k: u64) -> (parts: (u32, u64))
        requires
            k <= self.infinity(),
        ensures
            parts.0 == exponent_part(self, k as nat),
            parts.1 == significand_part(self, k as nat),
            parts.1 < 2 * self.hidden(),
            parts.0 <= 2046,
            parts.0 == 0 || parts.1 >= self.hidden(),
            self.units(k as nat) == parts.1 * pow2(parts.0 as nat),
    {
        proof {
            lemma_parts(self, k as nat);
        }
        match self {
            Format::Single => {
                if k < 0x100_0000 {
                    (0, k)
                } else {
                    ((k / 0x80_0000 - 1) as u32, 0x80_0000 + k % 0x80_0000)
                }
            },
            Format::Double => {
                if k < 0x20_0000_0000_0000 {
                    (0, k)
                } else {
                    (
                        (k / 0x10_0000_0000_0000 - 1) as u32,
                        0x10_0000_0000_0000 + k % 0x10_0000_0000_0000,
                    )
                }
            },
        }
    }
}

/// The fraction `n / d` lies between `m` and `m + 1` times two to the `e`, and `rest` says
/// whether it is above `m`.
pub open spec fn is_between(n: nat, d: nat, m: nat, e: int, rest: bool) -> bool {
    if e >= 0 {
        let unit = d * pow2(e as nat);
        m * unit <= n < (m + 1) * unit && (rest <==> m * unit != n)
    } else {
        let scaled = n * pow2((-e) as nat);
        m * d <= scaled < (m + 1) * d && (rest <==> m * d != scaled)
    }
}

/// A pattern is even where its significand is.
proof fn lemma_parity(f: Format, t: nat, q: nat)
    ensures
        (t * f.hidden() + q) % 2 == q % 2,
{
    let half: nat = f.hidden() / 2;
    assert(f.hidden() == 2 * half);
    assert(t * (2 * half) == 2 * (t * half)) by (nonlinear_arith);
}

/// Where `n / d` is no less than the number of pattern `k0`, which is no less than infinity, the
/// nearest pattern is infinity.
pub proof fn lemma_round_to_infinity(f: Format, n: nat, d: nat, k0: nat)
    requires
        d > 0,
        k0 >= f.infinity(),
        n >= f.units(k0) * d,
    ensures
        f.is_nearest(n, d, f.infinity()),
{
    let i: nat = f.infinity();
    if k0 > i {
        lemma_units_increase(f, i, k0);
    }
    lemma_units_increase(f, (i - 1) as nat, i);
    let a: nat = f.units((i - 1) as nat);
    let b: nat = f.units(i);
    let c: nat = f.units(k0);
    assert(2 * n > (a + b) * d) by (nonlinear_arith)
        requires
            n >= c * d,
            c >= b,
            b > a,
            d > 0,
    ;
}

/// Where `n / d` lies between the numbers of pattern `k0` and the next, on the side of `k0`,
/// the nearest pattern is `k0`.
proof fn lemma_round_down(f: Format, n: nat, d: nat, k0: nat)
    requires
        d > 0,
        k0 < f.infinity(),
        n >= f.units(k0) * d,
        2 * n < (f.units(k0) + f.units(k0 + 1)) * d || (2 * n == (f.units(k0) + f.units(k0 + 1))
            * d && k0 % 2 == 0),
    ensures
        f.is_nearest(n, d, k0),
{
    if k0 > 0 {
        lemma_units_increase(f, (k0 - 1) as nat, k0);
        let a: nat = f.units((k0 - 1) as nat);
        let b: nat = f.units(k0);
        assert(2 * n > (a + b) * d) by (nonlinear_arith)
            requires
                n >= b * d,
                b > a,
                d > 0,
        ;
    }
}

/// Where `n / d` lies between the numbers of pattern `k0` and the next, on the side of the next,
/// the nearest pattern is the next.
proof fn lemma_round_up(f: Format, n: nat, d: nat, k0: nat)
    requires
        d > 0,
        k0 < f.infinity(),
        n <= f.units(k0 + 1) * d,
        2 * n > (f.units(k0) + f.units(k0 + 1)) * d || (2 * n == (f.units(k0) + f.units(k0 + 1))
            * d && k0 % 2 == 1),
    ensures
        f.is_nearest(n, d, k0 + 1),
{
    lemma_units_increase(f, k0 + 1, k0 + 2);
    let b: nat = f.units(k0 + 1);
    let c: nat = f.units(k0 + 2);
    assert(2 * n < (b + c) * d) by (nonlinear_arith)
        requires
            n <= b * d,
            c > b,
            d > 0,
    ;
}

/// Where `n / d` lies between `q` and `q + 1` times two to the `t`, the nearest pattern is the
/// one of `q`, or the next one if the fraction is past the middle, or in the middle and `q` odd.
proof fn lemma_round_parts(f: Format, n: nat, d: nat, q: nat, t: nat, up: bool, k: nat)
    requires
        d > 0,
        q < 2 * f.hidden(),
        t == 0 || f.hidden() <= q,
        q * pow2(t) * d <= n <= (q + 1) * pow2(t) * d,
        up ==> 2 * n > (2 * q + 1) * pow2(t) * d || (2 * n == (2 * q + 1) * pow2(t) * d && q % 2
            == 1),
        !up ==> 2 * n < (2 * q + 1) * pow2(t) * d || (2 * n == (2 * q + 1) * pow2(t) * d && q % 2
            == 0),
        k == t * f.hidden() + q + (if up { 1nat } else { 0nat }),
    ensures
        f.is_nearest(
            n,
            d,
            if k > f.infinity() {
                f.infinity()
            } else {
                k
            },
        ),
{
    let k0: nat = t * f.hidden() + q;
    let p: nat = pow2(t);
    lemma_units_of_parts(f, t, q);
    lemma_units_of_parts(f, t, q + 1);
    assert(t * f.hidden() + (q + 1) == k0 + 1);
    lemma_parity(f, t, q);
    assert((q * p + (q + 1) * p) * d == (2 * q + 1) * p * d) by (nonlinear_arith);
    if k0 >= f.infinity() {
        lemma_round_to_infinity(f, n, d, k0);
    } else if up {
        lemma_round_up(f, n, d, k0);
    } else {
        lemma_round_down(f, n, d, k0);
    }
}

/// From `m` and `m + 1` times two to the `e` to `q` and `q + 1` times two to the `t`, with
/// `q` the quotient of `m` by two to the `t - e`.
proof fn lemma_coarser(
    n: nat,
    d: nat,
    m: nat,
    e: int,
    rest: bool,
    t: nat,
    q: nat,
    r: nat,
)
    requires
        d > 0,
        is_between(n, d, m, e, rest),
        t > e,
        m == q * pow2((t - e) as nat) + r,
        r < pow2((t - e) as nat),
    ensures
        q * pow2(t) * d <= n < (q + 1) * pow2(t) * d,
        2 * r < pow2((t - e) as nat) ==> 2 * n < (2 * q + 1) * pow2(t) * d,
        2 * r == pow2((t - e) as nat) && !rest ==> 2 * n == (2 * q + 1) * pow2(t) * d,
        2 * r == pow2((t - e) as nat) && rest ==> 2 * n > (2 * q + 1) * pow2(t) * d,
        2 * r > pow2((t - e) as nat) ==> 2 * n > (2 * q + 1) * pow2(t) * d,
{
    let s: nat = (t - e) as nat;
    let w: nat = pow2(s);
    let half: nat = pow2((s - 1) as nat);
    lemma_pow2_unfold(s);
    lemma_pow2_pos((s - 1) as nat);
    lemma_pow2_pos(t);
    // In the finer unit the bounds are whole: n lies in [m, m + 1) of it, w of it make one of
    // the coarser unit.
    let unit: nat = if e >= 0 { d * pow2(e as nat) } else { d };
    let big: nat = if e >= 0 { n } else { n * pow2((-e) as nat) };
    let lift: nat = if e >= 0 { 1 } else { pow2((-e) as nat) };
    assert(lift > 0) by {
        if e < 0 {
            lemma_pow2_pos((-e) as nat);
        }
    }
    assert(unit > 0) by {
        if e >= 0 {
            lemma_pow2_pos(e as nat);
            assert(d * pow2(e as nat) > 0) by (nonlinear_arith)
                requires
                    d > 0,
                    pow2(e as nat) > 0,
            ;
        }
    }
    // w units are two to the t times d, both sides lifted alike.
    assert(w * unit == lift * (pow2(t) * d)) by {
        if e >= 0 {
            lemma_pow2_adds(s, e as nat);
            assert(pow2(t) == w * pow2(e as nat));
            assert(w * (d * pow2(e as nat)) == (w * pow2(e as nat)) * d) by (nonlinear_arith);
            assert(lift * (pow2(t) * d) == pow2(t) * d);
        } else {
            lemma_pow2_adds(t, (-e) as nat);
            assert(w == pow2(t) * pow2((-e) as nat));
            assert((pow2(t) * lift) * d == lift * (pow2(t) * d)) by (nonlinear_arith);
        }
    }
    let c: nat = pow2(t) * d;
    assert(big == lift * n) by {
        if e < 0 {
            assert(n * lift == lift * n) by (nonlinear_arith);
        }
    }
    assert(m * unit <= big < (m + 1) * unit);
    // q w <= m < m + 1 <= (q + 1) w
    assert(q * w * unit <= big < (q + 1) * w * unit) by (nonlinear_arith)
        requires
            m * unit <= big < (m + 1) * unit,
            m == q * w + r,
            0 <= r < w,
            unit > 0,
    ;
    assert(q * w * unit == lift * (q * c) && (q + 1) * w * unit == lift * ((q + 1) * c)
        && (2 * q + 1) * w * unit == lift * ((2 * q + 1) * c)) by (nonlinear_arith)
        requires
            w * unit == lift * c,
    ;
    assert(q * c <= n < (q + 1) * c) by (nonlinear_arith)
        requires
            lift * (q * c) <= lift * n < lift * ((q + 1) * c),
            lift > 0,
    ;
    assert(q * c == q * pow2(t) * d && (q + 1) * c == (q + 1) * pow2(t) * d && (2 * q + 1) * c
        == (2 * q + 1) * pow2(t) * d) by (nonlinear_arith)
        requires
            c == pow2(t) * d,
    ;
    // Twice the middle is (2 q + 1) w, an even number of units.
    let middle: nat = q * w + half;
    assert(2 * (middle * unit) == (2 * q + 1) * w * unit) by (nonlinear_arith)
        requires
            middle == q * w + half,
            w == 2 * half,
    ;
    if 2 * r < w {
        assert(big < middle * unit) by (nonlinear_arith)
            requires
                big < (m + 1) * unit,
                m + 1 <= middle,
                unit > 0,
        ;
        assert(2 * n < (2 * q + 1) * c) by (nonlinear_arith)
            requires
                2 * (lift * n) < lift * ((2 * q + 1) * c),
                lift > 0,
        ;
    } else if 2 * r == w {
        assert(m == middle);
        if rest {
            assert(2 * n > (2 * q + 1) * c) by (nonlinear_arith)
                requires
                    2 * (lift * n) > lift * ((2 * q + 1) * c),
                    lift > 0,
            ;
        } else {
            assert(2 * n == (2 * q + 1) * c) by (nonlinear_arith)
                requires
                    2 * (lift * n) == lift * ((2 * q + 1) * c),
                    lift > 0,
            ;
        }
    } else {
        assert(big > middle * unit) by (nonlinear_arith)
            requires
                big >= m * unit,
                m >= middle + 1,
                unit > 0,
        ;
        assert(2 * n > (2 * q + 1) * c) by (nonlinear_arith)
            requires
                2 * (lift * n) > lift * ((2 * q + 1) * c),
                lift > 0,
        ;
    }
}

/// The significand found by shifting has the digits that it should.
proof fn lemma_quotient_width(f: Format, m: nat, l: nat, e: int, t: nat, q: nat, r: nat)
    requires
        1 <= l,
        pow2((l - 1) as nat) <= m < pow2(l),
        t == (if e + l - f.fraction_bits() - 1 > 0 {
            e + l - f.fraction_bits() - 1
        } else {
            0
        }),
        t > e,
        m == q * pow2((t - e) as nat) + r,
        r < pow2((t - e) as nat),
    ensures
        q < 2 * f.hidden(),
        t == 0 || f.hidden() <= q,
{
    let s: nat = (t - e) as nat;
    let w: nat = pow2(s);
    let width: nat = f.fraction_bits() + 1;
    lemma_hidden_is_power(f);
    lemma_pow2_unfold(width);
    lemma_pow2_pos(s);
    if t > 0 {
        assert(s == l - width);
        lemma_pow2_adds(width, s);
        lemma_pow2_adds(f.fraction_bits(), s);
        let h: nat = f.hidden();
        assert(q < 2 * h) by (nonlinear_arith)
            requires
                q * w + r < (2 * h) * w,
                w > 0,
        ;
        assert(q >= h) by (nonlinear_arith)
            requires
                q * w + r >= h * w,
                r < w,
                w > 0,
        ;
    } else if l + e >= 0 {
        lemma_pow2_adds((l + e) as nat, s);
        lemma_pow2_ordered((l + e) as nat, width);
        let x: nat = pow2((l + e) as nat);
        assert(q < x) by (nonlinear_arith)
            requires
                q * w + r < x * w,
                w > 0,
        ;
    } else {
        lemma_pow2_ordered(l, s);
        assert(q == 0) by (nonlinear_arith)
            requires
                q * w + r < w,
                w > 0,
        ;
    }
}

/// A fraction that is a whole number of units at most as wide as a significand.
proof fn lemma_round_exact(f: Format, n: nat, d: nat, m: nat, l: nat, e: int, t: nat, q: nat)
    requires
        d > 0,
        1 <= l,
        pow2((l - 1) as nat) <= m < pow2(l),
        is_between(n, d, m, e, false),
        t == (if e + l - f.fraction_bits() - 1 > 0 {
            e + l - f.fraction_bits() - 1
        } else {
            0
        }),
        t <= e,
        q == m * pow2((e - t) as nat),
    ensures
        q < 2 * f.hidden(),
        t == 0 || f.hidden() <= q,
        f.is_nearest(
            n,
            d,
            if t * f.hidden() + q > f.infinity() {
                f.infinity()
            } else {
                t * f.hidden() + q
            },
        ),
{
    let s: nat = (e - t) as nat;
    let w: nat = pow2(s);
    let width: nat = f.fraction_bits() + 1;
    lemma_hidden_is_power(f);
    lemma_pow2_unfold(width);
    lemma_pow2_pos(s);
    lemma_pow2_pos(t);
    lemma_pow2_adds(l, s);
    lemma_pow2_adds((l - 1) as nat, s);
    lemma_pow2_ordered(l + s, width);
    let big: nat = pow2(l);
    let small: nat = pow2((l - 1) as nat);
    assert(small * w <= m * w < big * w) by (nonlinear_arith)
        requires
            small <= m < big,
            w > 0,
    ;
    if t > 0 {
        assert((l - 1) as nat + s == f.fraction_bits());
    }
    lemma_pow2_adds(s, t);
    let p: nat = pow2(t);
    let full: nat = pow2(e as nat);
    assert(full == w * p);
    assert(n == q * p * d) by (nonlinear_arith)
        requires
            n == m * (d * full),
            full == w * p,
            q == m * w,
    ;
    assert(n <= (q + 1) * p * d && 2 * n < (2 * q + 1) * p * d) by (nonlinear_arith)
        requires
            n == q * p * d,
            p > 0,
            d > 0,
    ;
    lemma_round_parts(f, n, d, q, t, false, t * f.hidden() + q);
}

impl Format {
    /// The number of binary digits of a significand.
    fn width(self) -> (w: i32)
        ensures
            w == self.fraction_bits() + 1,
    {
        match self {
            Format::Single => 24,
            Format::Double => 53,
        }
    }

    /// The pattern of exponent `t` and significand `q`, or infinity where that is past it.
    fn join(self, t: i32, q: u64) -> (k: u64)
        requires
            0 <= t,
            q <= 2 * self.hidden(),
        ensures
            k == (if t * self.hidden() + q > self.infinity() {
                self.infinity()
            } else {
                (t * self.hidden() + q) as nat
            }),
    {
        match self {
            Format::Single => {
                if t >= 255 {
                    0x7f80_0000
                } else {
                    let k: u64 = t as u64 * 0x80_0000 + q;
                    if k > 0x7f80_0000 {
                        0x7f80_0000
                    } else {
                        k
                    }
                }
            },
            Format::Double => {
                if t >= 2047 {
                    0x7ff0_0000_0000_0000
                } else {
                    let k: u64 = t as u64 * 0x10_0000_0000_0000 + q;
                    if k > 0x7ff0_0000_0000_0000 {
                        0x7ff0_0000_0000_0000
                    } else {
                        k
                    }
                }
            },
        }
    }

    /// The pattern nearest to a fraction `n / d` of which the leading digits `m`, their weight
    /// and whether anything follows them are known.
    pub(crate) fn round(
        self,
        m: u128,
        e: i32,
        rest: bool,
        Ghost(n): Ghost<nat>,
        Ghost(d): Ghost<nat>,
    ) -> (k: u64)
        requires
            d > 0,
            0 < m < 0x8000_0000_0000_0000_0000_0000_0000_0000,
            -10_000 <= e <= 10_000,
            is_between(n, d, m as nat, e as int, rest),
            rest ==> m >= 4 * self.hidden(),
        ensures
            k == self.nearest(n, d),
            self.is_nearest(n, d, k as nat),
            k <= self.infinity(),
    {
        let l: u32 = bit_length(m);
        let excess: i32 = e + l as i32 - self.width();
        let t: i32 = if excess > 0 {
            excess
        } else {
            0
        };
        if t <= e {
            proof {
                if rest {
                    lemma_hidden_is_power(self);
                    lemma_pow2_unfold((self.fraction_bits() + 1) as nat);
                    if l as int <= self.fraction_bits() + 1 {
                        lemma_pow2_ordered(l as nat, (self.fraction_bits() + 1) as nat);
                    }
                    assert(false);
                }
                lemma_round_exact(
                    self,
                    n,
                    d,
                    m as nat,
                    l as nat,
                    e as int,
                    t as nat,
                    (m * pow2((e - t) as nat)) as nat,
                );
            }
            let w: u128 = two_to((e - t) as u32);
            let q: u64 = (m * w) as u64;
            let k: u64 = self.join(t, q);
            proof {
                lemma_nearest_is(self, n, d, k as nat);
            }
            k
        } else if t - e > 127 {
            proof {
                let s: nat = (t - e) as nat;
                lemma2_to127();
                lemma_pow2_unfold(128);
                lemma_pow2_ordered(128, s);
                lemma_coarser(n, d, m as nat, e as int, rest, 0, 0, m as nat);
                lemma_pow2_pos(0);
                assert(self.hidden() * 0 == 0);
                lemma_round_parts(self, n, d, 0, 0, false, 0);
                lemma_nearest_is(self, n, d, 0);
            }
            0
        } else {
            let w: u128 = two_to((t - e) as u32);
            proof {
                lemma_pow2_pos((t - e) as nat);
                lemma_pow2_unfold((t - e) as nat);
                vstd::arithmetic::div_mod::lemma_fundamental_div_mod(m as int, w as int);
                let q: nat = (m / w) as nat;
                assert(w * q == q * w) by (nonlinear_arith);
                lemma_quotient_width(
                    self,
                    m as nat,
                    l as nat,
                    e as int,
                    t as nat,
                    q,
                    (m % w) as nat,
                );
                lemma_coarser(n, d, m as nat, e as int, rest, t as nat, q, (m % w) as nat);
            }
            let q: u64 = (m / w) as u64;
            let r: u128 = m % w;
            let half: u128 = w / 2;
            let up: bool = r > half || (r == half && (rest || q % 2 == 1));
            let k: u64 = self.join(
                t,
                if up {
                    q + 1
                } else {
                    q
                },
            );
            proof {
                let full: nat = t as nat * self.hidden() + q as nat + (if up {
                    1nat
                } else {
                    0nat
                });
                lemma_round_parts(self, n, d, q as nat, t as nat, up, full);
                lemma_nearest_is(self, n, d, k as nat);
            }
            k
        }
    }
}

} // verus!
