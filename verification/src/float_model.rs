//! Binary floating-point numbers as mathematics.
//!
//! Tempo, volume and sample values travel through the player as the bit patterns of IEEE 754
//! numbers. This module says what such a pattern stands for and what the correctly rounded
//! result of an operation is.

use vstd::arithmetic::power2::{
    lemma2_to64, lemma2_to64_rest, lemma_pow2_pos, lemma_pow2_unfold, pow2,
};
use vstd::prelude::*;

verus! {

/// The two interchange formats in use: 32 bits for samples, volume and time stamps, 64 bits for
/// tempo and seconds.
#[derive(Clone, Copy, PartialEq, Eq, Structural, Debug)]
pub enum Format {
    Single,
    Double,
}

impl Format {
    /// Two to the number of stored fraction bits.
    pub open spec fn hidden(self) -> nat {
        match self {
            Format::Single => 0x80_0000,
            Format::Double => 0x10_0000_0000_0000,
        }
    }

    /// The number of stored fraction bits.
    pub open spec fn fraction_bits(self) -> nat {
        match self {
            Format::Single => 23,
            Format::Double => 52,
        }
    }

    /// The least positive number of the format is two to the power of minus `scale`. It is the
    /// unit in which [`Format::units`] counts.
    pub open spec fn scale(self) -> nat {
        match self {
            Format::Single => 149,
            Format::Double => 1074,
        }
    }

    /// The pattern of plus infinity. Patterns below it are the finite non-negative numbers in
    /// increasing order; patterns above it, up to the sign bit, are not numbers.
    pub open spec fn infinity(self) -> nat {
        match self {
            Format::Single => 0x7f80_0000,
            Format::Double => 0x7ff0_0000_0000_0000,
        }
    }

    /// The weight of the sign bit.
    pub open spec fn sign_bit(self) -> nat {
        match self {
            Format::Single => 0x8000_0000,
            Format::Double => 0x8000_0000_0000_0000,
        }
    }

    /// The pattern given for a result that is not a number.
    pub open spec fn not_a_number(self) -> nat {
        match self {
            Format::Single => 0x7fc0_0000,
            Format::Double => 0x7ff8_0000_0000_0000,
        }
    }

    /// Whether `bits` is a pattern of this format.
    pub open spec fn holds(self, bits: u64) -> bool {
        bits < 2 * self.sign_bit()
    }

    /// The pattern without its sign.
    pub open spec fn magnitude(self, bits: u64) -> nat {
        if bits < self.sign_bit() {
            bits as nat
        } else {
            (bits - self.sign_bit()) as nat
        }
    }

    pub open spec fn is_negative(self, bits: u64) -> bool {
        bits >= self.sign_bit()
    }

    pub open spec fn is_finite(self, bits: u64) -> bool {
        self.magnitude(bits) < self.infinity()
    }

    pub open spec fn is_infinite(self, bits: u64) -> bool {
        self.magnitude(bits) == self.infinity()
    }

    pub open spec fn is_nan(self, bits: u64) -> bool {
        self.magnitude(bits) > self.infinity()
    }

    pub open spec fn is_zero(self, bits: u64) -> bool {
        self.magnitude(bits) == 0
    }

    /// The number that the non-negative pattern `k` stands for, counted in the least positive
    /// number of the format. The pattern of infinity counts as the number that would come next
    /// after the greatest finite one, which is what rounding takes it for.
    pub open spec fn units(self, k: nat) -> nat {
        let h = self.hidden();
        if k < 2 * h {
            k
        } else {
            (h + k % h) * pow2((k / h - 1) as nat)
        }
    }

    /// The number that a finite pattern stands for, in the same unit, with its sign.
    pub open spec fn value(self, bits: u64) -> int {
        if self.is_negative(bits) {
            -(self.units(self.magnitude(bits)) as int)
        } else {
            self.units(self.magnitude(bits)) as int
        }
    }

    /// `k` is the pattern nearest to the fraction `n / d` of units, the even one where two are
    /// equally near.
    pub open spec fn is_nearest(self, n: nat, d: nat, k: nat) -> bool {
        &&& k <= self.infinity()
        &&& k > 0 ==> {
            let below = (self.units((k - 1) as nat) + self.units(k)) * d;
            2 * n > below || (2 * n == below && k % 2 == 0)
        }
        &&& k < self.infinity() ==> {
            let above = (self.units(k) + self.units(k + 1)) * d;
            2 * n < above || (2 * n == above && k % 2 == 0)
        }
    }

    /// The pattern nearest to `n / d` units.
    pub open spec fn nearest(self, n: nat, d: nat) -> nat {
        choose|k: nat| self.is_nearest(n, d, k)
    }

    /// The pattern with the given sign and magnitude.
    pub open spec fn signed(self, negative: bool, magnitude: nat) -> nat {
        if negative {
            magnitude + self.sign_bit()
        } else {
            magnitude
        }
    }

    /// The sum of two patterns.
    pub open spec fn sum(self, a: u64, b: u64) -> nat {
        if self.is_nan(a) || self.is_nan(b) {
            self.not_a_number()
        } else if self.is_infinite(a) {
            if self.is_infinite(b) && self.is_negative(a) != self.is_negative(b) {
                self.not_a_number()
            } else {
                a as nat
            }
        } else if self.is_infinite(b) {
            b as nat
        } else {
            let exact = self.value(a) + self.value(b);
            if exact == 0 {
                self.signed(self.is_negative(a) && self.is_negative(b), 0)
            } else if exact < 0 {
                self.signed(true, self.nearest((-exact) as nat, 1))
            } else {
                self.signed(false, self.nearest(exact as nat, 1))
            }
        }
    }

    /// The product of two patterns.
    pub open spec fn product(self, a: u64, b: u64) -> nat {
        let negative = self.is_negative(a) != self.is_negative(b);
        if self.is_nan(a) || self.is_nan(b) {
            self.not_a_number()
        } else if self.is_infinite(a) || self.is_infinite(b) {
            if self.is_zero(a) || self.is_zero(b) {
                self.not_a_number()
            } else {
                self.signed(negative, self.infinity())
            }
        } else {
            let exact = self.units(self.magnitude(a)) * self.units(self.magnitude(b));
            self.signed(negative, self.nearest(exact, pow2(self.scale())))
        }
    }

    /// The quotient of two patterns.
    pub open spec fn quotient(self, a: u64, b: u64) -> nat {
        let negative = self.is_negative(a) != self.is_negative(b);
        if self.is_nan(a) || self.is_nan(b) {
            self.not_a_number()
        } else if self.is_infinite(a) {
            if self.is_infinite(b) {
                self.not_a_number()
            } else {
                self.signed(negative, self.infinity())
            }
        } else if self.is_infinite(b) {
            self.signed(negative, 0)
        } else if self.is_zero(b) {
            if self.is_zero(a) {
                self.not_a_number()
            } else {
                self.signed(negative, self.infinity())
            }
        } else {
            let n = self.units(self.magnitude(a)) * pow2(self.scale());
            self.signed(negative, self.nearest(n, self.units(self.magnitude(b))))
        }
    }

    /// The pattern of a whole number.
    pub open spec fn whole(self, x: nat) -> nat {
        self.nearest(x * pow2(self.scale()), 1)
    }

    /// Whether `a` is less than `b`; false where either is not a number.
    pub open spec fn less(self, a: u64, b: u64) -> bool {
        &&& !self.is_nan(a)
        &&& !self.is_nan(b)
        &&& self.value(a) < self.value(b)
    }
}

/// The whole number nearest to `n / d`, the even one where two are equally near.
pub open spec fn half_even(n: nat, d: nat) -> nat {
    let q = n / d;
    let r = n % d;
    if 2 * r < d || (2 * r == d && q % 2 == 0) {
        q
    } else {
        q + 1
    }
}

/// `hidden` is the power of two that its name says.
pub proof fn lemma_hidden_is_power(f: Format)
    ensures
        f.hidden() == pow2(f.fraction_bits()),
{
    lemma2_to64();
    lemma2_to64_rest();
}

/// The pattern made of exponent `t` and significand `q` stands for `q` times two to the `t`.
pub proof fn lemma_units_of_parts(f: Format, t: nat, q: nat)
    requires
        q <= 2 * f.hidden(),
        t == 0 || f.hidden() <= q,
    ensures
        f.units(t * f.hidden() + q) == q * pow2(t),
{
    let h: nat = f.hidden();
    let k: nat = t * h + q;
    lemma_pow2_unfold(t + 1);
    lemma2_to64();
    if t == 0 {
        assert(t * h == 0) by (nonlinear_arith)
            requires
                t == 0,
        ;
        if q == 2 * h {
            assert(k / h == 2 && k % h == 0);
        }
        assert(q * pow2(0) == q);
    } else if q < 2 * h {
        assert(k == (t + 1) * h + (q - h)) by (nonlinear_arith)
            requires
                k == t * h + q,
        ;
        vstd::arithmetic::div_mod::lemma_fundamental_div_mod_converse(
            k as int,
            h as int,
            (t + 1) as int,
            q - h,
        );
        assert(k >= 2 * h) by (nonlinear_arith)
            requires
                k == t * h + q,
                t >= 1,
                q >= h,
        ;
    } else {
        assert(k == (t + 2) * h) by (nonlinear_arith)
            requires
                k == t * h + q,
                q == 2 * h,
        ;
        vstd::arithmetic::div_mod::lemma_fundamental_div_mod_converse(
            k as int,
            h as int,
            (t + 2) as int,
            0,
        );
        assert(k >= 2 * h) by (nonlinear_arith)
            requires
                k == t * h + q,
                t >= 1,
                q == 2 * h,
        ;
        assert(h * (2 * pow2(t)) == (2 * h) * pow2(t)) by (nonlinear_arith);
    }
}

/// The exponent and significand of a pattern.
pub open spec fn exponent_part(f: Format, k: nat) -> nat {
    if k < 2 * f.hidden() {
        0
    } else {
        (k / f.hidden() - 1) as nat
    }
}

pub open spec fn significand_part(f: Format, k: nat) -> nat {
    if k < 2 * f.hidden() {
        k
    } else {
        f.hidden() + k % f.hidden()
    }
}

/// A pattern is made of its exponent and significand, and so is the next one with the
/// significand raised by one.
pub proof fn lemma_parts(f: Format, k: nat)
    ensures
        significand_part(f, k) < 2 * f.hidden(),
        exponent_part(f, k) == 0 || f.hidden() <= significand_part(f, k),
        k == exponent_part(f, k) * f.hidden() + significand_part(f, k),
        f.units(k) == significand_part(f, k) * pow2(exponent_part(f, k)),
        f.units(k + 1) == (significand_part(f, k) + 1) * pow2(exponent_part(f, k)),
        f.units(k) < f.units(k + 1),
{
    let h: nat = f.hidden();
    let t: nat = exponent_part(f, k);
    let q: nat = significand_part(f, k);
    vstd::arithmetic::div_mod::lemma_fundamental_div_mod(k as int, h as int);
    if k < 2 * h {
        assert(t * h == 0) by (nonlinear_arith)
            requires
                t == 0,
        ;
    } else {
        assert(k / h >= 2) by (nonlinear_arith)
            requires
                k >= 2 * h,
                h > 0,
                k == h * (k / h) + k % h,
                k % h < h,
        ;
        assert(k == t * h + q) by (nonlinear_arith)
            requires
                k == h * (k / h) + k % h,
                t == k / h - 1,
                q == h + k % h,
        ;
    }
    lemma_units_of_parts(f, t, q);
    lemma_units_of_parts(f, t, q + 1);
    lemma_pow2_pos(t);
    assert((q + 1) * pow2(t) > q * pow2(t)) by (nonlinear_arith)
        requires
            pow2(t) > 0,
    ;
}

/// Patterns are ordered as the numbers they stand for.
pub proof fn lemma_units_increase(f: Format, j: nat, k: nat)
    requires
        j < k,
    ensures
        f.units(j) < f.units(k),
    decreases k - j,
{
    lemma_parts(f, (k - 1) as nat);
    if j + 1 < k {
        lemma_units_increase(f, j, (k - 1) as nat);
    }
}

/// Rounding keeps the order: a fraction that is no greater rounds to a pattern that is no
/// greater.
pub proof fn lemma_nearest_ordered(f: Format, n1: nat, d1: nat, k1: nat, n2: nat, d2: nat, k2: nat)
    requires
        d1 > 0,
        d2 > 0,
        n1 * d2 <= n2 * d1,
        f.is_nearest(n1, d1, k1),
        f.is_nearest(n2, d2, k2),
    ensures
        k1 <= k2,
{
    if k1 > k2 {
        let s1: nat = f.units((k1 - 1) as nat) + f.units(k1);
        let s2: nat = f.units(k2) + f.units(k2 + 1);
        if k2 + 1 < k1 {
            lemma_units_increase(f, k2, (k1 - 1) as nat);
            lemma_units_increase(f, k2 + 1, k1);
        }
        assert(s2 <= s1);
        assert(2 * n1 >= s1 * d1);
        assert(2 * n2 <= s2 * d2);
        assert(2 * n1 * d2 >= s1 * d1 * d2) by (nonlinear_arith)
            requires
                2 * n1 >= s1 * d1,
        ;
        assert(2 * n2 * d1 <= s2 * d2 * d1) by (nonlinear_arith)
            requires
                2 * n2 <= s2 * d2,
        ;
        assert(s1 * d1 * d2 >= s2 * d2 * d1 && (s1 > s2 ==> s1 * d1 * d2 > s2 * d2 * d1))
            by (nonlinear_arith)
            requires
                s1 >= s2,
                d1 > 0,
                d2 > 0,
        ;
        assert(2 * n1 * d2 <= 2 * n2 * d1) by (nonlinear_arith)
            requires
                n1 * d2 <= n2 * d1,
        ;
        assert(s1 == s2);
        assert(k1 == k2 + 1);
        assert(2 * n1 == s1 * d1) by (nonlinear_arith)
            requires
                2 * n1 >= s1 * d1,
                2 * n1 * d2 <= s1 * d1 * d2,
                d2 > 0,
        ;
        assert(2 * n2 == s2 * d2) by (nonlinear_arith)
            requires
                2 * n2 <= s2 * d2,
                2 * n2 * d1 >= s2 * d2 * d1,
                d1 > 0,
        ;
        assert(false);
    }
}

/// There is one nearest pattern.
pub proof fn lemma_nearest_is(f: Format, n: nat, d: nat, k: nat)
    requires
        d > 0,
        f.is_nearest(n, d, k),
    ensures
        f.nearest(n, d) == k,
{
    let c: nat = f.nearest(n, d);
    assert(f.is_nearest(n, d, c));
    lemma_nearest_ordered(f, n, d, c, n, d, k);
    lemma_nearest_ordered(f, n, d, k, n, d, c);
}

/// The search behind [`lemma_nearest_exists`], among the patterns from `from` on.
proof fn lemma_nearest_from(f: Format, n: nat, d: nat, from: nat) -> (k: nat)
    requires
        d > 0,
        from <= f.infinity(),
        from > 0 ==> {
            let below = (f.units((from - 1) as nat) + f.units(from)) * d;
            2 * n > below || (2 * n == below && from % 2 == 0)
        },
    ensures
        f.is_nearest(n, d, k),
    decreases f.infinity() - from,
{
    if f.is_nearest(n, d, from) {
        from
    } else {
        lemma_nearest_from(f, n, d, from + 1)
    }
}

/// Every fraction has a nearest pattern, and [`Format::nearest`] is it.
pub proof fn lemma_nearest_exists(f: Format, n: nat, d: nat)
    requires
        d > 0,
    ensures
        f.is_nearest(n, d, f.nearest(n, d)),
        f.nearest(n, d) <= f.infinity(),
{
    let k: nat = lemma_nearest_from(f, n, d, 0);
    lemma_nearest_is(f, n, d, k);
}

/// A number of the format is nearest to itself.
pub proof fn lemma_nearest_of_units(f: Format, d: nat, k: nat)
    requires
        d > 0,
        k <= f.infinity(),
    ensures
        f.is_nearest(f.units(k) * d, d, k),
        f.nearest(f.units(k) * d, d) == k,
{
    let n: nat = f.units(k) * d;
    if k > 0 {
        lemma_units_increase(f, (k - 1) as nat, k);
        let u: nat = f.units((k - 1) as nat);
        let v: nat = f.units(k);
        assert(2 * n > (u + v) * d) by (nonlinear_arith)
            requires
                n == v * d,
                u < v,
                d > 0,
        ;
    }
    lemma_units_increase(f, k, k + 1);
    let v: nat = f.units(k);
    let w: nat = f.units(k + 1);
    assert(2 * n < (v + w) * d) by (nonlinear_arith)
        requires
            n == v * d,
            v < w,
            d > 0,
    ;
    lemma_nearest_is(f, n, d, k);
}

} // verus!
