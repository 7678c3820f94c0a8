//! Arithmetic on floating-point patterns, correctly rounded.

use crate::float_model::{
    lemma_nearest_is, lemma_nearest_of_units, lemma_parts, lemma_units_increase, Format,
};
use crate::float_rounding::{bit_length, is_between, lemma2_to127, lemma_pow2_ordered, two_to};
use vstd::arithmetic::power2::{
    lemma2_to64, lemma_pow2_adds, lemma_pow2_pos, lemma_pow2_unfold, pow2,
};
use vstd::prelude::*;

verus! {

/// The product of two significands is the product of their numbers, in a finer unit.
proof fn lemma_product_between(
    f: Format,
    ma: nat,
    ea: nat,
    mb: nat,
    eb: nat,
)
    ensures
        is_between(
            (ma * pow2(ea)) * (mb * pow2(eb)),
            pow2(f.scale()),
            ma * mb,
            ea + eb - f.scale(),
            false,
        ),
{
    let n: nat = (ma * pow2(ea)) * (mb * pow2(eb));
    let d: nat = pow2(f.scale());
    let e: int = ea + eb - f.scale();
    let m: nat = ma * mb;
    let pa: nat = pow2(ea);
    let pb: nat = pow2(eb);
    lemma_pow2_pos(f.scale());
    lemma_pow2_pos(ea + eb);
    lemma_pow2_adds(ea, eb);
    let p: nat = pow2(ea + eb);
    assert(n == m * p) by (nonlinear_arith)
        requires
            n == (ma * pa) * (mb * pb),
            m == ma * mb,
            p == pa * pb,
    ;
    if e >= 0 {
        lemma_pow2_adds(f.scale(), e as nat);
        assert((m + 1) * p > m * p) by (nonlinear_arith)
            requires
                p > 0,
        ;
    } else {
        lemma_pow2_adds(ea + eb, (-e) as nat);
        let x: nat = pow2((-e) as nat);
        assert(n * x == m * d) by (nonlinear_arith)
            requires
                n == m * p,
                d == p * x,
        ;
        assert((m + 1) * d > m * d) by (nonlinear_arith)
            requires
                d > 0,
        ;
    }
}

/// The quotient of two significands is the quotient of their numbers, in another unit.
proof fn lemma_quotient_between(
    f: Format,
    ma: nat,
    ea: nat,
    mb: nat,
    eb: nat,
    shift: nat,
    q: nat,
    r: nat,
)
    requires
        mb > 0,
        ma * pow2(shift) == q * mb + r,
        r < mb,
    ensures
        mb * pow2(eb) > 0,
        is_between(
            (ma * pow2(ea)) * pow2(f.scale()),
            mb * pow2(eb),
            q,
            ea + f.scale() - eb - shift,
            r != 0,
        ),
{
    let d: nat = mb * pow2(eb);
    let n: nat = (ma * pow2(ea)) * pow2(f.scale());
    let e: int = ea + f.scale() - eb - shift;
    let top: nat = ma * pow2(shift);
    lemma_pow2_pos(eb);
    assert(d > 0) by (nonlinear_arith)
        requires
            d == mb * pow2(eb),
            mb > 0,
            pow2(eb) > 0,
    ;
    lemma_pow2_adds(ea, f.scale());
    let pa: nat = pow2(ea);
    let ps: nat = pow2(f.scale());
    assert(n == ma * (pa * ps)) by (nonlinear_arith)
        requires
            n == (ma * pa) * ps,
    ;
    if e >= 0 {
        let x: nat = pow2((eb + e) as nat);
        lemma_pow2_pos((eb + e) as nat);
        lemma_pow2_adds(shift, (eb + e) as nat);
        lemma_pow2_adds(eb, e as nat);
        let unit: nat = d * pow2(e as nat);
        assert(unit == mb * x) by (nonlinear_arith)
            requires
                unit == (mb * pow2(eb)) * pow2(e as nat),
                x == pow2(eb) * pow2(e as nat),
        ;
        assert(n == top * x) by (nonlinear_arith)
            requires
                n == ma * (pow2(shift) * x),
                top == ma * pow2(shift),
        ;
        assert(q * (mb * x) <= top * x < (q + 1) * (mb * x) && (r != 0 <==> q * (mb * x) != top
            * x)) by (nonlinear_arith)
            requires
                top == q * mb + r,
                0 <= r < mb,
                x > 0,
        ;
    } else {
        let y: nat = pow2((-e) as nat);
        let x: nat = pow2(eb);
        lemma_pow2_adds(ea + f.scale(), (-e) as nat);
        lemma_pow2_adds(shift, eb);
        assert(ea + f.scale() + (-e) as nat == shift + eb);
        assert(n * y == top * x) by (nonlinear_arith)
            requires
                n == ma * (pa * ps),
                (pa * ps) * y == pow2(shift) * x,
                top == ma * pow2(shift),
        ;
        assert(q * (mb * x) <= top * x < (q + 1) * (mb * x) && (r != 0 <==> q * (mb * x) != top
            * x)) by (nonlinear_arith)
            requires
                top == q * mb + r,
                0 <= r < mb,
                x > 0,
        ;
    }
}

/// A number that is less than half of the smaller gap beside `k` does not move it.
proof fn lemma_small_term(f: Format, k: nat, term: nat)
    requires
        2 * f.hidden() <= k < f.infinity(),
        8 * term <= f.units(k + 1) - f.units(k),
    ensures
        term <= f.units(k),
        f.is_nearest(f.units(k) + term, 1, k),
        f.is_nearest((f.units(k) - term) as nat, 1, k),
{
    lemma_parts(f, k);
    lemma_parts(f, (k - 1) as nat);
    let h: nat = f.hidden();
    let t: nat = crate::float_model::exponent_part(f, k);
    let q: nat = crate::float_model::significand_part(f, k);
    let t1: nat = crate::float_model::exponent_part(f, (k - 1) as nat);
    let p: nat = pow2(t);
    lemma_pow2_unfold(t);
    assert(t >= 1) by {
        assert(k / h >= 2);
    }
    // The gap above is 2^t; the gap below is at least half of that.
    assert(f.units(k + 1) - f.units(k) == p) by (nonlinear_arith)
        requires
            f.units(k) == q * p,
            f.units(k + 1) == (q + 1) * p,
    ;
    assert(2 * (f.units(k) - f.units((k - 1) as nat)) >= p) by {
        let q1: nat = crate::float_model::significand_part(f, (k - 1) as nat);
        let p1: nat = pow2(t1);
        assert(t1 + 1 >= t) by {
            assert((k - 1) as nat / h + 1 >= k / h);
        }
        lemma_pow2_unfold(t1 + 1);
        lemma_pow2_ordered(t, t1 + 1);
        assert((q1 + 1) * p1 - q1 * p1 == p1) by (nonlinear_arith);
    }
    assert(q * p >= p) by (nonlinear_arith)
        requires
            q >= 1,
    ;
}

/// The sum of two finite numbers, the first with the greater exponent.
proof fn lemma_sum_between(ma: nat, ea: nat, mb: nat, eb: nat, shifted: nat)
    requires
        ea >= eb,
        shifted == ma * pow2((ea - eb) as nat),
    ensures
        ma * pow2(ea) == shifted * pow2(eb),
        is_between(ma * pow2(ea) + mb * pow2(eb), 1, shifted + mb, eb as int, false),
        shifted >= mb ==> ma * pow2(ea) >= mb * pow2(eb) && is_between(
            (ma * pow2(ea) - mb * pow2(eb)) as nat,
            1,
            (shifted - mb) as nat,
            eb as int,
            false,
        ),
        shifted <= mb ==> ma * pow2(ea) <= mb * pow2(eb) && is_between(
            (mb * pow2(eb) - ma * pow2(ea)) as nat,
            1,
            (mb - shifted) as nat,
            eb as int,
            false,
        ),
{
    let g: nat = pow2((ea - eb) as nat);
    let p: nat = pow2(eb);
    lemma_pow2_pos(eb);
    lemma_pow2_adds((ea - eb) as nat, eb);
    let full: nat = pow2(ea);
    assert(ma * full == shifted * p) by (nonlinear_arith)
        requires
            full == g * p,
            shifted == ma * g,
    ;
    assert(shifted * p + mb * p == (shifted + mb) * p) by (nonlinear_arith);
    assert((shifted + mb + 1) * p > (shifted + mb) * p) by (nonlinear_arith)
        requires
            p > 0,
    ;
    if shifted >= mb {
        let m: nat = (shifted - mb) as nat;
        assert(shifted * p - mb * p == m * p) by (nonlinear_arith)
            requires
                m == shifted - mb,
        ;
        assert((m + 1) * p > m * p && m * p >= 0) by (nonlinear_arith)
            requires
                p > 0,
                m >= 0,
        ;
    }
    if shifted <= mb {
        let m: nat = (mb - shifted) as nat;
        assert(mb * p - shifted * p == m * p) by (nonlinear_arith)
            requires
                m == mb - shifted,
        ;
        assert((m + 1) * p > m * p && m * p >= 0) by (nonlinear_arith)
            requires
                p > 0,
                m >= 0,
        ;
    }
}

impl Format {
    /// The pattern of infinity.
    pub fn infinity_bits(self) -> (k: u64)
        ensures
            k == self.infinity(),
    {
        match self {
            Format::Single => 0x7f80_0000,
            Format::Double => 0x7ff0_0000_0000_0000,
        }
    }

    /// The pattern given for a result that is not a number.
    pub fn nan_bits(self) -> (k: u64)
        ensures
            k == self.not_a_number(),
    {
        match self {
            Format::Single => 0x7fc0_0000,
            Format::Double => 0x7ff8_0000_0000_0000,
        }
    }

    fn sign_bits(self) -> (k: u64)
        ensures
            k == self.sign_bit(),
    {
        match self {
            Format::Single => 0x8000_0000,
            Format::Double => 0x8000_0000_0000_0000,
        }
    }

    fn scale_bits(self) -> (e: i32)
        ensures
            e == self.scale(),
    {
        match self {
            Format::Single => 149,
            Format::Double => 1074,
        }
    }

    /// The pattern without its sign.
    pub fn magnitude_of(self, bits: u64) -> (k: u64)
        ensures
            k == self.magnitude(bits),
    {
        if bits < self.sign_bits() {
            bits
        } else {
            bits - self.sign_bits()
        }
    }

    /// The pattern with the given sign and magnitude.
    pub fn with_sign(self, negative: bool, k: u64) -> (r: u64)
        requires
            k <= self.infinity(),
        ensures
            r == self.signed(negative, k as nat),
    {
        if negative {
            k + self.sign_bits()
        } else {
            k
        }
    }

    /// The pattern of a whole number.
    pub fn from_whole(self, x: u64) -> (r: u64)
        ensures
            r == self.whole(x as nat),
            r <= self.infinity(),
    {
        let ghost n: nat = x as nat * pow2(self.scale());
        proof {
            lemma2_to127();
            lemma_pow2_pos(self.scale());
            let p: nat = pow2(self.scale());
            assert((x + 1) * p > x * p) by (nonlinear_arith)
                requires
                    p > 0,
            ;
            assert(x * (1 * p) == x * p && (x + 1) * (1 * p) == (x + 1) * p) by (nonlinear_arith);
        }
        if x == 0 {
            proof {
                lemma_nearest_of_units(self, 1, 0);
                assert(0 * pow2(self.scale()) == 0);
            }
            0
        } else {
            self.round(x as u128, self.scale_bits(), false, Ghost(n), Ghost(1nat))
        }
    }

    /// The product of two patterns.
    pub fn mul(self, a: u64, b: u64) -> (r: u64)
        requires
            self.holds(a),
            self.holds(b),
        ensures
            r == self.product(a, b),
            self.holds(r),
    {
        let negative: bool = (a >= self.sign_bits()) != (b >= self.sign_bits());
        let ka: u64 = self.magnitude_of(a);
        let kb: u64 = self.magnitude_of(b);
        let infinity: u64 = self.infinity_bits();
        if ka > infinity || kb > infinity {
            self.nan_bits()
        } else if ka == infinity || kb == infinity {
            if ka == 0 || kb == 0 {
                self.nan_bits()
            } else {
                self.with_sign(negative, infinity)
            }
        } else {
            let (ea, ma) = self.split(ka);
            let (eb, mb) = self.split(kb);
            let ghost n: nat = self.units(ka as nat) * self.units(kb as nat);
            let ghost d: nat = pow2(self.scale());
            proof {
                lemma_pow2_pos(self.scale());
                lemma2_to127();
                lemma_product_between(self, ma as nat, ea as nat, mb as nat, eb as nat);
                assert(ma * mb <= 0x20_0000_0000_0000 * 0x20_0000_0000_0000) by (nonlinear_arith)
                    requires
                        ma <= 0x20_0000_0000_0000,
                        mb <= 0x20_0000_0000_0000,
                ;
            }
            let m: u128 = ma as u128 * mb as u128;
            if m == 0 {
                proof {
                    let pa: nat = pow2(ea as nat);
                    let pb: nat = pow2(eb as nat);
                    assert((ma * pa) * (mb * pb) == 0) by (nonlinear_arith)
                        requires
                            ma * mb == 0,
                    ;
                    lemma_nearest_of_units(self, d, 0);
                    assert(0 * d == 0);
                }
                self.with_sign(negative, 0)
            } else {
                let k: u64 = self.round(
                    m,
                    ea as i32 + eb as i32 - self.scale_bits(),
                    false,
                    Ghost(n),
                    Ghost(d),
                );
                self.with_sign(negative, k)
            }
        }
    }

    /// The quotient of two patterns.
    pub fn div(self, a: u64, b: u64) -> (r: u64)
        requires
            self.holds(a),
            self.holds(b),
        ensures
            r == self.quotient(a, b),
            self.holds(r),
    {
        let negative: bool = (a >= self.sign_bits()) != (b >= self.sign_bits());
        let ka: u64 = self.magnitude_of(a);
        let kb: u64 = self.magnitude_of(b);
        let infinity: u64 = self.infinity_bits();
        if ka > infinity || kb > infinity {
            self.nan_bits()
        } else if ka == infinity {
            if kb == infinity {
                self.nan_bits()
            } else {
                self.with_sign(negative, infinity)
            }
        } else if kb == infinity {
            self.with_sign(negative, 0)
        } else if kb == 0 {
            if ka == 0 {
                self.nan_bits()
            } else {
                self.with_sign(negative, infinity)
            }
        } else {
            let (ea, ma) = self.split(ka);
            let (eb, mb) = self.split(kb);
            let ghost n: nat = self.units(ka as nat) * pow2(self.scale());
            let ghost d: nat = self.units(kb as nat);
            proof {
                lemma_pow2_pos(eb as nat);
                lemma_parts(self, kb as nat);
                lemma_units_increase(self, 0, kb as nat);
                assert(mb > 0) by (nonlinear_arith)
                    requires
                        mb * pow2(eb as nat) > 0,
                        mb >= 0,
                ;
            }
            if ka == 0 {
                proof {
                    lemma_nearest_of_units(self, d, 0);
                    assert(0 * pow2(self.scale()) == 0 && 0 * d == 0);
                }
                self.with_sign(negative, 0)
            } else {
                proof {
                    lemma_pow2_pos(ea as nat);
                    lemma_units_increase(self, 0, ka as nat);
                    assert(ma > 0) by (nonlinear_arith)
                        requires
                            ma * pow2(ea as nat) > 0,
                            ma >= 0,
                    ;
                }
                let shift: u32 = 127 - bit_length(ma as u128);
                let w: u128 = two_to(shift);
                proof {
                    let l: nat = (127 - shift) as nat;
                    lemma2_to127();
                    lemma_pow2_pos(shift as nat);
                    lemma_pow2_adds(l, shift as nat);
                    lemma_pow2_adds((l - 1) as nat, shift as nat);
                    lemma_pow2_unfold(127);
                    assert(pow2((l - 1) as nat) * w <= ma * w < pow2(l) * w) by (nonlinear_arith)
                        requires
                            pow2((l - 1) as nat) <= ma < pow2(l),
                            w > 0,
                    ;
                }
                let top: u128 = ma as u128 * w;
                let q: u128 = top / mb as u128;
                let r: u128 = top % mb as u128;
                proof {
                    vstd::arithmetic::div_mod::lemma_fundamental_div_mod(top as int, mb as int);
                    assert(mb * q == q * mb) by (nonlinear_arith);
                    lemma_quotient_between(
                        self,
                        ma as nat,
                        ea as nat,
                        mb as nat,
                        eb as nat,
                        shift as nat,
                        q as nat,
                        r as nat,
                    );
                    assert(q >= 0x40_0000_0000_0000 && q <= top) by (nonlinear_arith)
                        requires
                            top == q * mb + r,
                            r < mb,
                            0 < mb <= 0x20_0000_0000_0000,
                            top >= 0x4000_0000_0000_0000_0000_0000_0000_0000,
                    ;
                }
                let k: u64 = self.round(
                    q,
                    ea as i32 + self.scale_bits() - eb as i32 - shift as i32,
                    r != 0,
                    Ghost(n),
                    Ghost(d),
                );
                self.with_sign(negative, k)
            }
        }
    }

    /// The sum of two finite magnitudes, the first with the greater exponent, or their
    /// difference without its sign.
    fn combine(self, ka: u64, kb: u64, subtract: bool) -> (r: (bool, u64))
        requires
            kb <= ka < self.infinity(),
        ensures
            ({
                let a = self.units(ka as nat) as int;
                let b = self.units(kb as nat) as int;
                let exact = if subtract { a - b } else { a + b };
                exact >= 0 && r.0 == (exact == 0) && (exact > 0 ==> r.1 == self.nearest(
                    exact as nat,
                    1,
                )) && r.1 <= self.infinity()
            }),
    {
        let (ea, ma) = self.split(ka);
        let (eb, mb) = self.split(kb);
        let ghost a: nat = self.units(ka as nat);
        let ghost b: nat = self.units(kb as nat);
        proof {
            lemma_parts(self, ka as nat);
            lemma_parts(self, kb as nat);
            if kb < ka {
                lemma_units_increase(self, kb as nat, ka as nat);
            }
            lemma_exponents_ordered(self, kb as nat, ka as nat);
            lemma2_to127();
            lemma2_to64();
        }
        if ea - eb > 64 {
            proof {
                // The smaller number is below an eighth of the gap beside the greater one.
                let gap: nat = pow2(ea as nat);
                assert(self.units(ka as nat + 1) - a == gap) by (nonlinear_arith)
                    requires
                        a == ma * gap,
                        self.units(ka as nat + 1) == (ma + 1) * gap,
                ;
                lemma_pow2_adds(eb as nat, 64);
                lemma_pow2_ordered((eb + 64) as nat, ea as nat);
                let pb: nat = pow2(eb as nat);
                lemma_pow2_pos(eb as nat);
                assert(8 * b <= gap) by (nonlinear_arith)
                    requires
                        b == mb * pb,
                        mb <= 0x20_0000_0000_0000,
                        gap >= pb * 0x1_0000_0000_0000_0000,
                        pb > 0,
                ;
                lemma_small_term(self, ka as nat, b);
                lemma_nearest_is(self, a + b, 1, ka as nat);
                lemma_nearest_is(self, (a - b) as nat, 1, ka as nat);
                lemma_pow2_pos(ea as nat);
                assert(a >= gap) by (nonlinear_arith)
                    requires
                        a == ma * gap,
                        ma >= 1,
                ;
            }
            (false, ka)
        } else {
            let w: u128 = two_to(ea - eb);
            proof {
                lemma_pow2_ordered((ea - eb) as nat, 64);
                lemma_pow2_pos(eb as nat);
                assert(ma * w <= 0x20_0000_0000_0000 * 0x1_0000_0000_0000_0000) by (nonlinear_arith)
                    requires
                        ma <= 0x20_0000_0000_0000,
                        w <= 0x1_0000_0000_0000_0000,
                ;
            }
            let shifted: u128 = ma as u128 * w;
            proof {
                lemma_sum_between(ma as nat, ea as nat, mb as nat, eb as nat, shifted as nat);
                let p: nat = pow2(eb as nat);
                assert(shifted >= mb) by (nonlinear_arith)
                    requires
                        shifted * p >= mb * p,
                        p > 0,
                ;
            }
            if subtract {
                let m: u128 = shifted - mb as u128;
                if m == 0 {
                    (true, 0)
                } else {
                    proof {
                        let p: nat = pow2(eb as nat);
                        assert(shifted * p - mb * p >= 1) by (nonlinear_arith)
                            requires
                                shifted >= mb + 1,
                                p > 0,
                        ;
                    }
                    let k: u64 = self.round(
                        m,
                        eb as i32,
                        false,
                        Ghost((a - b) as nat),
                        Ghost(1nat),
                    );
                    (false, k)
                }
            } else {
                let m: u128 = shifted + mb as u128;
                if m == 0 {
                    (true, 0)
                } else {
                    proof {
                        let p: nat = pow2(eb as nat);
                        assert(shifted * p + mb * p >= 1) by (nonlinear_arith)
                            requires
                                shifted + mb >= 1,
                                p > 0,
                        ;
                    }
                    let k: u64 = self.round(m, eb as i32, false, Ghost(a + b), Ghost(1nat));
                    (false, k)
                }
            }
        }
    }

    /// The sum of two patterns.
    pub fn add(self, a: u64, b: u64) -> (r: u64)
        requires
            self.holds(a),
            self.holds(b),
        ensures
            r == self.sum(a, b),
            self.holds(r),
    {
        let negative_a: bool = a >= self.sign_bits();
        let negative_b: bool = b >= self.sign_bits();
        let ka: u64 = self.magnitude_of(a);
        let kb: u64 = self.magnitude_of(b);
        let infinity: u64 = self.infinity_bits();
        if ka > infinity || kb > infinity {
            self.nan_bits()
        } else if ka == infinity {
            if kb == infinity && negative_a != negative_b {
                self.nan_bits()
            } else {
                a
            }
        } else if kb == infinity {
            b
        } else {
            let subtract: bool = negative_a != negative_b;
            if kb <= ka {
                let (zero, k) = self.combine(ka, kb, subtract);
                if zero {
                    self.with_sign(negative_a && negative_b, 0)
                } else {
                    self.with_sign(negative_a, k)
                }
            } else {
                let (zero, k) = self.combine(kb, ka, subtract);
                if zero {
                    self.with_sign(negative_a && negative_b, 0)
                } else {
                    self.with_sign(negative_b, k)
                }
            }
        }
    }

    /// Whether `a` is less than `b`.
    pub fn lt(self, a: u64, b: u64) -> (r: bool)
        requires
            self.holds(a),
            self.holds(b),
        ensures
            r == self.less(a, b),
    {
        let negative_a: bool = a >= self.sign_bits();
        let negative_b: bool = b >= self.sign_bits();
        let ka: u64 = self.magnitude_of(a);
        let kb: u64 = self.magnitude_of(b);
        let infinity: u64 = self.infinity_bits();
        proof {
            if ka < kb {
                lemma_units_increase(self, ka as nat, kb as nat);
            }
            if kb < ka {
                lemma_units_increase(self, kb as nat, ka as nat);
            }
            if 0 < ka {
                lemma_units_increase(self, 0, ka as nat);
            }
            if 0 < kb {
                lemma_units_increase(self, 0, kb as nat);
            }
        }
        if ka > infinity || kb > infinity {
            false
        } else if negative_a {
            if negative_b {
                kb < ka
            } else {
                ka > 0 || kb > 0
            }
        } else if negative_b {
            false
        } else {
            ka < kb
        }
    }
}

/// A greater pattern has no smaller exponent.
proof fn lemma_exponents_ordered(f: Format, j: nat, k: nat)
    requires
        j <= k,
    ensures
        crate::float_model::exponent_part(f, j) <= crate::float_model::exponent_part(f, k),
{
    let h: nat = f.hidden();
    vstd::arithmetic::div_mod::lemma_div_is_ordered(j as int, k as int, h as int);
    if k >= 2 * h {
        assert(k / h >= 1);
    }
}

} // verus!
