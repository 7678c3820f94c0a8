//! Spans of time and their arithmetic.

use crate::float_model::{half_even, Format};
use crate::float_rounding::{lemma2_to127, lemma_pow2_ordered, two_to};
use vstd::arithmetic::power2::{
    lemma2_to64, lemma_pow2_adds, lemma_pow2_pos, lemma_pow2_strictly_increases, pow2,
};
use vstd::prelude::*;

verus! {

/// The number of nanoseconds in a second.
pub const NANOS_PER_SEC: u32 = 1_000_000_000;

/// A span of time, or a position on a time line that starts at zero.
#[derive(Clone, Copy, PartialEq, Eq, Structural, Debug)]
pub struct Duration {
    /// Whole seconds.
    pub secs: u64,
    /// Nanoseconds beyond them, less than one second.
    pub nanos: u32,
}

/// The span that a number of seconds stands for, in nanoseconds: the nearest whole number of
/// them, the even one of two equally near. There is none for a number that is negative, not a
/// number, or past the greatest span.
pub open spec fn nanos_of_seconds(bits: u64) -> Option<nat> {
    let f = Format::Double;
    let units = f.units(f.magnitude(bits));
    if f.is_nan(bits) || (f.is_negative(bits) && !f.is_zero(bits)) || units >= pow2(64) * pow2(
        f.scale(),
    ) {
        None
    } else {
        Some(half_even(units * 1_000_000_000, pow2(f.scale())))
    }
}

impl Duration {
    /// Nanoseconds make up less than a second.
    pub open spec fn wf(self) -> bool {
        self.nanos < 1_000_000_000
    }

    /// The whole span in nanoseconds.
    pub open spec fn total(self) -> nat {
        (self.secs * 1_000_000_000 + self.nanos) as nat
    }

    /// The span of so many nanoseconds.
    pub open spec fn of_total(total: nat) -> Duration {
        Duration {
            secs: (total / 1_000_000_000) as u64,
            nanos: (total % 1_000_000_000) as u32,
        }
    }

    /// The span as a floating-point number of seconds: the whole seconds plus the quotient of
    /// the nanoseconds, each step rounded.
    pub open spec fn seconds(self) -> u64 {
        let f = Format::Double;
        let fraction = f.quotient(
            f.whole(self.nanos as nat) as u64,
            f.whole(1_000_000_000) as u64,
        );
        f.sum(f.whole(self.secs as nat) as u64, fraction as u64) as u64
    }

    /// The span times a floating-point factor, or none where that is no span.
    pub open spec fn times(self, factor: u64) -> Option<nat> {
        nanos_of_seconds(Format::Double.product(factor, self.seconds()) as u64)
    }

    /// The span divided by a floating-point divisor, or none where that is no span.
    pub open spec fn divided(self, divisor: u64) -> Option<nat> {
        nanos_of_seconds(Format::Double.quotient(self.seconds(), divisor) as u64)
    }

    /// The span of `secs` seconds and `nanos` nanoseconds.
    pub fn new(secs: u64, nanos: u32) -> (d: Duration)
        requires
            secs + nanos / 1_000_000_000 <= u64::MAX,
        ensures
            d.wf(),
            d.total() == secs * 1_000_000_000 + nanos,
    {
        Duration { secs: secs + (nanos / NANOS_PER_SEC) as u64, nanos: nanos % NANOS_PER_SEC }
    }

    /// The span of `secs` seconds.
    pub fn from_secs(secs: u64) -> (d: Duration)
        ensures
            d.wf(),
            d.secs == secs,
            d.nanos == 0,
    {
        Duration { secs, nanos: 0 }
    }

    /// No time at all.
    pub fn zero() -> (d: Duration)
        ensures
            d.wf(),
            d == (Duration { secs: 0, nanos: 0 }),
    {
        Duration { secs: 0, nanos: 0 }
    }

    /// Whether this span is at least as long as `other`.
    pub fn at_least(self, other: Duration) -> (r: bool)
        requires
            self.wf(),
            other.wf(),
        ensures
            r == (self.total() >= other.total()),
    {
        self.secs > other.secs || (self.secs == other.secs && self.nanos >= other.nanos)
    }

    /// The shorter of two spans.
    pub fn min(self, other: Duration) -> (d: Duration)
        requires
            self.wf(),
            other.wf(),
        ensures
            d == (if other.total() < self.total() {
                other
            } else {
                self
            }),
    {
        if self.at_least(other) {
            proof {
                lemma_total_determines(self, other);
            }
            other
        } else {
            self
        }
    }

    /// Both spans together.
    pub fn plus(self, other: Duration) -> (d: Duration)
        requires
            self.wf(),
            other.wf(),
            self.total() + other.total() < pow2(64) * 1_000_000_000,
        ensures
            d.wf(),
            d.total() == self.total() + other.total(),
    {
        proof {
            lemma2_to64();
        }
        let nanos: u32 = self.nanos + other.nanos;
        if nanos >= NANOS_PER_SEC {
            Duration { secs: self.secs + other.secs + 1, nanos: nanos - NANOS_PER_SEC }
        } else {
            Duration { secs: self.secs + other.secs, nanos }
        }
    }

    /// What is left of this span after `other`, nothing if `other` is longer.
    pub fn saturating_sub(self, other: Duration) -> (d: Duration)
        requires
            self.wf(),
            other.wf(),
        ensures
            d.wf(),
            d.total() == (if self.total() >= other.total() {
                self.total() - other.total()
            } else {
                0
            }),
    {
        if !self.at_least(other) {
            Duration { secs: 0, nanos: 0 }
        } else if self.nanos >= other.nanos {
            Duration { secs: self.secs - other.secs, nanos: self.nanos - other.nanos }
        } else {
            Duration {
                secs: self.secs - other.secs - 1,
                nanos: self.nanos + NANOS_PER_SEC - other.nanos,
            }
        }
    }

    /// The span as a floating-point number of seconds.
    pub fn to_seconds(self) -> (bits: u64)
        requires
            self.wf(),
        ensures
            bits == self.seconds(),
    {
        let f: Format = Format::Double;
        let fraction: u64 = f.div(f.from_whole(self.nanos as u64), f.from_whole(1_000_000_000));
        f.add(f.from_whole(self.secs), fraction)
    }

    /// The span of a floating-point number of seconds, or none if there is none.
    pub fn from_seconds(bits: u64) -> (d: Option<Duration>)
        ensures
            d is Some <==> nanos_of_seconds(bits) is Some,
            d is Some ==> d->0.wf() && d->0.total() == nanos_of_seconds(bits)->0,
    {
        let f: Format = Format::Double;
        let k: u64 = f.magnitude_of(bits);
        let infinity: u64 = f.infinity_bits();
        let ghost units: nat = f.units(k as nat);
        proof {
            lemma2_to64();
            lemma_pow2_pos(1074);
        }
        if k > infinity || (k != bits && k != 0) {
            return None;
        }
        let (t, q) = f.split(k);
        if t >= 1074 {
            let g: u32 = t - 1074;
            proof {
                lemma_pow2_adds(g as nat, 1074);
                let pg: nat = pow2(g as nat);
                let ps: nat = pow2(1074);
                assert(q * (pg * ps) == (q * pg) * ps) by (nonlinear_arith);
                lemma_pow2_pos(g as nat);
            }
            if g > 63 {
                proof {
                    lemma_pow2_ordered(64, g as nat);
                    let pg: nat = pow2(g as nat);
                    let ps: nat = pow2(1074);
                    assert((q * pg) * ps >= pow2(64) * ps) by (nonlinear_arith)
                        requires
                            q >= 1,
                            pg >= pow2(64),
                    ;
                }
                return None;
            }
            let w: u128 = two_to(g);
            proof {
                lemma_pow2_ordered(g as nat, 64);
                assert(q * w <= 0x20_0000_0000_0000 * 0x1_0000_0000_0000_0000) by (nonlinear_arith)
                    requires
                        q <= 0x20_0000_0000_0000,
                        w <= 0x1_0000_0000_0000_0000,
                ;
            }
            let secs: u128 = q as u128 * w;
            if secs >= 0x1_0000_0000_0000_0000 {
                proof {
                    assert(secs * pow2(1074) >= pow2(64) * pow2(1074)) by (nonlinear_arith)
                        requires
                            secs >= pow2(64),
                    ;
                }
                return None;
            }
            proof {
                let ps: nat = pow2(1074);
                assert(secs * ps < pow2(64) * ps) by (nonlinear_arith)
                    requires
                        secs < pow2(64),
                        ps > 0,
                ;
                assert((secs * ps) * 1_000_000_000 == (secs * 1_000_000_000) * ps + 0)
                    by (nonlinear_arith);
                vstd::arithmetic::div_mod::lemma_fundamental_div_mod_converse(
                    ((secs * ps) * 1_000_000_000) as int,
                    ps as int,
                    (secs * 1_000_000_000) as int,
                    0,
                );
            }
            Some(Duration { secs: secs as u64, nanos: 0 })
        } else {
            let s: u32 = 1074 - t;
            let product: u128 = q as u128 * 1_000_000_000;
            proof {
                lemma_pow2_adds(s as nat, t as nat);
                lemma_pow2_pos(s as nat);
                lemma_pow2_pos(t as nat);
                let pt: nat = pow2(t as nat);
                assert((q * pt) * 1_000_000_000 == product * pt) by (nonlinear_arith)
                    requires
                        product == q * 1_000_000_000,
                ;
                lemma_half_even_scaled(product as nat, pow2(s as nat), pt);
                lemma_pow2_ordered(t as nat, 1074);
                assert(q * pt < pow2(64) * pow2(1074)) by (nonlinear_arith)
                    requires
                        q < 0x1_0000_0000_0000_0000,
                        pow2(64) == 0x1_0000_0000_0000_0000,
                        pt <= pow2(1074),
                        pt > 0,
                ;
            }
            if s > 127 {
                proof {
                    lemma2_to127();
                    lemma_pow2_strictly_increases(127, s as nat);
                    let w: int = pow2(s as nat) as int;
                    vstd::arithmetic::div_mod::lemma_basic_div(product as int, w);
                    vstd::arithmetic::div_mod::lemma_small_mod(product as nat, pow2(s as nat));
                }
                Some(Duration { secs: 0, nanos: 0 })
            } else {
                let w: u128 = two_to(s);
                proof {
                    assert(product / w <= product) by (nonlinear_arith)
                        requires
                            w >= 1,
                            product >= 0,
                    ;
                }
                let whole: u128 = product / w;
                let r: u128 = product % w;
                let half: u128 = w / 2;
                proof {
                    vstd::arithmetic::power2::lemma_pow2_unfold(s as nat);
                }
                let total: u128 = if r < half || (r == half && whole % 2 == 0) {
                    whole
                } else {
                    whole + 1
                };
                Some(
                    Duration {
                        secs: (total / 1_000_000_000) as u64,
                        nanos: (total % 1_000_000_000) as u32,
                    },
                )
            }
        }
    }

    /// The span times a floating-point factor, or none where that is no span.
    pub fn try_mul(self, factor: u64) -> (d: Option<Duration>)
        requires
            self.wf(),
        ensures
            d is Some <==> self.times(factor) is Some,
            d is Some ==> d->0.wf() && d->0.total() == self.times(factor)->0,
    {
        Duration::from_seconds(Format::Double.mul(factor, self.to_seconds()))
    }

    /// The span divided by a floating-point divisor, or none where that is no span.
    pub fn try_div(self, divisor: u64) -> (d: Option<Duration>)
        requires
            self.wf(),
        ensures
            d is Some <==> self.divided(divisor) is Some,
            d is Some ==> d->0.wf() && d->0.total() == self.divided(divisor)->0,
    {
        Duration::from_seconds(Format::Double.div(self.to_seconds(), divisor))
    }
}

/// Spans of the same length are the same.
pub proof fn lemma_total_determines(a: Duration, b: Duration)
    requires
        a.wf(),
        b.wf(),
    ensures
        a.total() == b.total() ==> a == b,
        a == Duration::of_total(a.total()),
{
}

/// Rounding a fraction does not depend on how far it is reduced.
pub proof fn lemma_half_even_scaled(n: nat, d: nat, c: nat)
    requires
        d > 0,
        c > 0,
    ensures
        half_even(n * c, d * c) == half_even(n, d),
{
    let q: nat = n / d;
    let r: nat = n % d;
    vstd::arithmetic::div_mod::lemma_fundamental_div_mod(n as int, d as int);
    assert(n * c == q * (d * c) + r * c && 0 <= r * c < d * c) by (nonlinear_arith)
        requires
            n == d * q + r,
            0 <= r < d,
            c > 0,
    ;
    vstd::arithmetic::div_mod::lemma_fundamental_div_mod_converse(
        (n * c) as int,
        (d * c) as int,
        q as int,
        (r * c) as int,
    );
    assert((2 * (r * c) < d * c <==> 2 * r < d) && (2 * (r * c) == d * c <==> 2 * r == d))
        by (nonlinear_arith)
        requires
            c > 0,
    ;
}

} // verus!
