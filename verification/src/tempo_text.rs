//! The tempo in decimal, with two digits after the point.

use crate::digits::{digits_of, digits_text, is_digits, number, times_plus};
use crate::float_model::{half_even, Format};
use crate::float_rounding::{lemma2_to127, two_to};
use crate::text::{decimal, decimal_text, padded_left, two_digits};
use crate::time::lemma_half_even_scaled;
use vstd::arithmetic::power2::{
    lemma2_to64, lemma_pow2_adds, lemma_pow2_pos, lemma_pow2_strictly_increases,
    lemma_pow2_unfold, pow2,
};
use vstd::prelude::*;
use vstd::string::*;

verus! {

/// A floating-point number in hundredths: the nearest whole number of them, the even one of two
/// equally near.
pub open spec fn hundredths(bits: u64) -> nat {
    let f = Format::Double;
    half_even(f.units(f.magnitude(bits)) * 100, pow2(f.scale()))
}

/// A floating-point number in decimal, with two digits after the point.
pub open spec fn fixed_text(bits: u64) -> Seq<char> {
    let f = Format::Double;
    let sign = if f.is_negative(bits) {
        seq!['-']
    } else {
        Seq::empty()
    };
    if f.is_nan(bits) {
        seq!['N', 'a', 'N']
    } else if f.is_infinite(bits) {
        sign + seq!['i', 'n', 'f']
    } else {
        let n = hundredths(bits);
        sign + decimal(n / 100) + seq!['.'] + padded_left(decimal(n % 100), 2, '0')
    }
}

/// The text of `q` times two to the `g`.
fn scaled_text(q: u64, g: u32) -> (s: String)
    ensures
        s@ == decimal(q as nat * pow2(g as nat)),
{
    let mut ds: Vec<u64> = digits_of(q);
    let mut i: u32 = 0;
    proof {
        lemma2_to64();
        assert(q as nat * 1 == q as nat);
    }
    while i < g
        invariant
            i <= g,
            is_digits(ds@),
            number(ds@) == q as nat * pow2(i as nat),
        decreases g - i,
    {
        proof {
            lemma_pow2_unfold((i + 1) as nat);
            let p: nat = pow2(i as nat);
            assert((q as nat * p) * 2 == q as nat * (2 * p)) by (nonlinear_arith);
        }
        ds = times_plus(&ds, 2, 0);
        i = i + 1;
    }
    digits_text(&ds)
}

/// The number of hundredths of a number that is not whole for want of digits.
fn small_hundredths(q: u64, s: u32) -> (n: u64)
    requires
        q < 0x20_0000_0000_0000,
        1 <= s <= 1074,
    ensures
        n == half_even((q * 100) as nat, pow2(s as nat)),
{
    let product: u128 = q as u128 * 100;
    proof {
        lemma2_to127();
        lemma_pow2_pos(s as nat);
        lemma_pow2_unfold(s as nat);
    }
    if s > 127 {
        proof {
            lemma_pow2_strictly_increases(127, s as nat);
            vstd::arithmetic::div_mod::lemma_basic_div(product as int, pow2(s as nat) as int);
            vstd::arithmetic::div_mod::lemma_small_mod(product as nat, pow2(s as nat));
        }
        0
    } else {
        let w: u128 = two_to(s);
        proof {
            assert(product / w <= product) by (nonlinear_arith)
                requires
                    w >= 1,
                    product >= 0,
            ;
        }
        let whole: u128 = product / w;
        let r: u128 = product % w;
        let half: u128 = w / 2;
        if r < half || (r == half && whole % 2 == 0) {
            whole as u64
        } else {
            (whole + 1) as u64
        }
    }
}

/// A floating-point number in decimal, with two digits after the point.
pub fn format_fixed(bits: u64) -> (s: String)
    ensures
        s@ == fixed_text(bits),
{
    let f: Format = Format::Double;
    let k: u64 = f.magnitude_of(bits);
    let mut s: String = String::new();
    proof {
        reveal_strlit("NaN");
        reveal_strlit("-");
        reveal_strlit("inf");
        reveal_strlit(".");
        reveal_strlit(".00");
    }
    if k > f.infinity_bits() {
        s.append("NaN");
        assert(s@ =~= fixed_text(bits));
        return s;
    }
    if k != bits {
        s.append("-");
    }
    let ghost sign: Seq<char> = s@;
    assert(sign =~= (if f.is_negative(bits) {
        seq!['-']
    } else {
        Seq::empty()
    }));
    if k == f.infinity_bits() {
        s.append("inf");
        assert(s@ =~= fixed_text(bits));
        return s;
    }
    let (t, q) = f.split(k);
    let ghost n: nat = hundredths(bits);
    proof {
        lemma_pow2_pos(1074);
    }
    if t >= 1074 {
        let g: u32 = t - 1074;
        s.append(scaled_text(q, g).as_str());
        s.append(".00");
        proof {
            let whole: nat = q as nat * pow2(g as nat);
            let one: nat = pow2(1074);
            lemma_pow2_adds(g as nat, 1074);
            let pg: nat = pow2(g as nat);
            assert((q as nat * (pg * one)) * 100 == (whole * 100) * one + 0) by (nonlinear_arith)
                requires
                    whole == q as nat * pg,
            ;
            vstd::arithmetic::div_mod::lemma_fundamental_div_mod_converse(
                ((q as nat * (pg * one)) * 100) as int,
                one as int,
                (whole * 100) as int,
                0,
            );
            assert(n == whole * 100);
            assert(n / 100 == whole && n % 100 == 0);
            assert(padded_left(decimal(0), 2, '0') =~= seq!['0', '0']);
            assert(s@ =~= fixed_text(bits));
        }
    } else {
        proof {
            let pt: nat = pow2(t as nat);
            lemma_pow2_pos(t as nat);
            lemma_pow2_pos((1074 - t) as nat);
            lemma_pow2_adds((1074 - t) as nat, t as nat);
            assert((q as nat * pt) * 100 == (q as nat * 100) * pt) by (nonlinear_arith);
            lemma_half_even_scaled((q * 100) as nat, pow2((1074 - t) as nat), pt);
        }
        let h: u64 = small_hundredths(q, 1074 - t);
        s.append(decimal_text(h / 100).as_str());
        s.append(".");
        s.append(two_digits(h % 100).as_str());
        assert(s@ =~= fixed_text(bits));
    }
    s
}

} // verus!
