//! Whole numbers of any size, as decimal digits.

use crate::text::{decimal, digit, digit_text};
use vstd::prelude::*;
use vstd::string::*;

verus! {

/// Ten to the `n`.
pub open spec fn ten_to(n: nat) -> nat
    decreases n,
{
    if n == 0 {
        1
    } else {
        10 * ten_to((n - 1) as nat)
    }
}

/// The number of the first `n` decimal digits, the lowest first.
spec fn low_digits(ds: Seq<u64>, n: nat) -> nat
    decreases n,
{
    if n == 0 {
        0
    } else {
        low_digits(ds, (n - 1) as nat) + ds[n - 1] as nat * ten_to((n - 1) as nat)
    }
}

/// The number of the decimal digits from place `i` on.
pub open spec fn high_digits(ds: Seq<u64>, i: nat) -> nat
    decreases ds.len() - i,
{
    if i >= ds.len() {
        0
    } else {
        ds[i as int] as nat + 10 * high_digits(ds, i + 1)
    }
}

/// The number that decimal digits stand for, the lowest first.
pub open spec fn number(ds: Seq<u64>) -> nat {
    high_digits(ds, 0)
}

/// Decimal digits of a number, the lowest first, without zeros ahead.
pub open spec fn is_digits(ds: Seq<u64>) -> bool {
    &&& ds.len() > 0
    &&& forall|i: int| 0 <= i < ds.len() ==> #[trigger] ds[i] < 10
    &&& ds.len() > 1 ==> ds.last() > 0
}

/// A number is made of the digits below and from any place.
proof fn lemma_low_and_high(ds: Seq<u64>, i: nat)
    requires
        i <= ds.len(),
    ensures
        number(ds) == low_digits(ds, i) + ten_to(i) * high_digits(ds, i),
    decreases i,
{
    if i > 0 {
        lemma_low_and_high(ds, (i - 1) as nat);
        let d: nat = ds[i - 1] as nat;
        let t: nat = ten_to((i - 1) as nat);
        let h: nat = high_digits(ds, i);
        assert(t * (d + 10 * h) == d * t + (10 * t) * h) by (nonlinear_arith);
    } else {
        assert(1 * high_digits(ds, 0) == high_digits(ds, 0));
    }
}

/// All digits are the digits below the end.
proof fn lemma_low_is_all(ds: Seq<u64>)
    ensures
        number(ds) == low_digits(ds, ds.len()),
{
    lemma_low_and_high(ds, ds.len());
    let t: nat = ten_to(ds.len());
    assert(t * 0 == 0);
}

/// The first digits do not depend on those after them.
proof fn lemma_low_same(a: Seq<u64>, b: Seq<u64>, n: nat)
    requires
        n <= a.len(),
        n <= b.len(),
        forall|i: int| 0 <= i < n ==> a[i] == b[i],
    ensures
        low_digits(a, n) == low_digits(b, n),
    decreases n,
{
    if n > 0 {
        lemma_low_same(a, b, (n - 1) as nat);
    }
}

/// The digits below a place make less than one at that place.
proof fn lemma_low_bound(ds: Seq<u64>, n: nat)
    requires
        n <= ds.len(),
        forall|i: int| 0 <= i < ds.len() ==> #[trigger] ds[i] < 10,
    ensures
        low_digits(ds, n) < ten_to(n),
    decreases n,
{
    if n > 0 {
        lemma_low_bound(ds, (n - 1) as nat);
        let t: nat = ten_to((n - 1) as nat);
        let d: nat = ds[n - 1] as nat;
        assert(d * t <= 9 * t) by (nonlinear_arith)
            requires
                d <= 9,
        ;
    }
}

/// A power of ten is positive, and no smaller for a greater exponent.
pub proof fn lemma_ten_to_ordered(a: nat, b: nat)
    requires
        a <= b,
    ensures
        0 < ten_to(a) <= ten_to(b),
    decreases b,
{
    if b == 0 {
    } else if a == b {
        lemma_ten_to_ordered((a - 1) as nat, (b - 1) as nat);
    } else {
        lemma_ten_to_ordered(a, (b - 1) as nat);
    }
}

/// A sum of exponents is a product of powers.
pub proof fn lemma_ten_to_adds(a: nat, b: nat)
    ensures
        ten_to(a + b) == ten_to(a) * ten_to(b),
    decreases b,
{
    if b == 0 {
        assert(ten_to(a) * 1 == ten_to(a));
    } else {
        lemma_ten_to_adds(a, (b - 1) as nat);
        let x: nat = ten_to(a);
        let y: nat = ten_to((b - 1) as nat);
        assert(10 * (x * y) == x * (10 * y)) by (nonlinear_arith);
    }
}

/// The number of `n` digits is less than ten to the `n`, and at least ten to the `n - 1` if it is
/// not zero.
pub proof fn lemma_number_bounds(ds: Seq<u64>)
    requires
        is_digits(ds),
    ensures
        number(ds) < ten_to(ds.len()),
        number(ds) > 0 ==> number(ds) >= ten_to((ds.len() - 1) as nat),
{
    let n: nat = (ds.len() - 1) as nat;
    lemma_low_is_all(ds);
    lemma_low_bound(ds, ds.len());
    let d: nat = ds.last() as nat;
    let t: nat = ten_to(n);
    if ds.len() > 1 {
        assert(d * t >= t) by (nonlinear_arith)
            requires
                d >= 1,
        ;
    }
}

/// A number in decimal digits.
pub fn digits_of(n: u64) -> (r: Vec<u64>)
    ensures
        is_digits(r@),
        number(r@) == n,
{
    let mut r: Vec<u64> = Vec::new();
    let mut left: u64 = n;
    r.push(left % 10);
    left = left / 10;
    proof {
        assert(ten_to(0) == 1);
        assert(ten_to(1) == 10 * ten_to(0));
        assert(low_digits(r@, 1) == low_digits(r@, 0) + r@[0] as nat * ten_to(0));
        assert(r@[0] as nat * 1 == r@[0] as nat);
    }
    while left > 0
        invariant
            r@.len() > 0,
            forall|j: int| 0 <= j < r@.len() ==> #[trigger] r@[j] < 10,
            low_digits(r@, r@.len()) + left * ten_to(r@.len()) == n,
            left == 0 && r@.len() > 1 ==> r@.last() > 0,
        decreases left,
    {
        let ghost before: Seq<u64> = r@;
        let ghost was: nat = left as nat;
        r.push(left % 10);
        left = left / 10;
        proof {
            lemma_low_same(before, r@, before.len());
            let t: nat = ten_to(before.len());
            let d: nat = was % 10;
            let l: nat = left as nat;
            assert(d * t + l * (10 * t) == was * t) by (nonlinear_arith)
                requires
                    was == 10 * l + d,
            ;
        }
    }
    proof {
        lemma_low_is_all(r@);
        let t: nat = ten_to(r@.len());
        assert(0 * t == 0);
    }
    r
}

/// A number times `m` plus `a`.
pub fn times_plus(ds: &Vec<u64>, m: u64, a: u64) -> (r: Vec<u64>)
    requires
        is_digits(ds@),
        1 <= m <= 0xffff_ffff,
        a <= 0xffff_ffff,
    ensures
        is_digits(r@),
        number(r@) == number(ds@) * m + a,
{
    let mut r: Vec<u64> = Vec::new();
    let mut carry: u64 = a;
    let mut i: usize = 0;
    proof {
        assert(low_digits(r@, 0) == 0);
        assert(ten_to(0) == 1);
        assert(a * 1 == a);
        assert(0 * m == 0);
    }
    while i < ds.len()
        invariant
            i <= ds@.len(),
            is_digits(ds@),
            1 <= m <= 0xffff_ffff,
            a <= 0xffff_ffff,
            carry <= 0xffff_ffff,
            r@.len() == i,
            forall|j: int| 0 <= j < i ==> #[trigger] r@[j] < 10,
            low_digits(r@, i as nat) + carry * ten_to(i as nat) == low_digits(ds@, i as nat) * m
                + a,
            i == ds@.len() && ds@.len() > 1 ==> carry > 0 || r@[i - 1] > 0,
        decreases ds@.len() - i,
    {
        let d: u64 = ds[i];
        proof {
            assert(d * m <= 9 * 0xffff_ffff) by (nonlinear_arith)
                requires
                    d <= 9,
                    m <= 0xffff_ffff,
            ;
            assert(d > 0 ==> d * m > 0) by (nonlinear_arith)
                requires
                    m >= 1,
            ;
        }
        let sum: u64 = d * m + carry;
        let ghost before: Seq<u64> = r@;
        let ghost carried: nat = carry as nat;
        r.push(sum % 10);
        carry = sum / 10;
        proof {
            lemma_low_same(before, r@, i as nat);
            let t: nat = ten_to(i as nat);
            let x: nat = (sum % 10) as nat;
            let c: nat = carry as nat;
            let low: nat = low_digits(ds@, i as nat);
            assert(x * t + c * (10 * t) == (d as nat * t) * m + carried * t) by (nonlinear_arith)
                requires
                    x + 10 * c == d as nat * m + carried,
            ;
            assert((low + d as nat * t) * m == low * m + (d as nat * t) * m) by (nonlinear_arith);
        }
        i = i + 1;
    }
    proof {
        lemma_low_is_all(ds@);
    }
    while carry > 0
        invariant
            r@.len() > 0,
            forall|j: int| 0 <= j < r@.len() ==> #[trigger] r@[j] < 10,
            low_digits(r@, r@.len()) + carry * ten_to(r@.len()) == number(ds@) * m + a,
            carry == 0 && r@.len() > 1 ==> r@.last() > 0,
        decreases carry,
    {
        let ghost before: Seq<u64> = r@;
        let ghost was: nat = carry as nat;
        r.push(carry % 10);
        carry = carry / 10;
        proof {
            lemma_low_same(before, r@, before.len());
            let t: nat = ten_to(before.len());
            let d: nat = was % 10;
            let c: nat = carry as nat;
            assert(d * t + c * (10 * t) == was * t) by (nonlinear_arith)
                requires
                    was == 10 * c + d,
            ;
        }
    }
    proof {
        lemma_low_is_all(r@);
        let t: nat = ten_to(r@.len());
        assert(0 * t == 0);
    }
    r
}

/// Whether one number is less than another, and whether they are equal.
pub fn compare(x: &Vec<u64>, y: &Vec<u64>) -> (r: (bool, bool))
    requires
        is_digits(x@),
        is_digits(y@),
    ensures
        r.0 == (number(x@) < number(y@)),
        r.1 == (number(x@) == number(y@)),
{
    proof {
        lemma_number_bounds(x@);
        lemma_number_bounds(y@);
    }
    if x.len() < y.len() {
        proof {
            lemma_ten_to_ordered(x@.len(), (y@.len() - 1) as nat);
            lemma_positive(y@);
        }
        return (true, false);
    }
    if x.len() > y.len() {
        proof {
            lemma_ten_to_ordered(y@.len(), (x@.len() - 1) as nat);
            lemma_positive(x@);
        }
        return (false, false);
    }
    let mut i: usize = x.len();
    while i > 0
        invariant
            i <= x@.len() == y@.len(),
            is_digits(x@),
            is_digits(y@),
            high_digits(x@, i as nat) == high_digits(y@, i as nat),
        decreases i,
    {
        i = i - 1;
        if x[i] != y[i] {
            proof {
                if x@[i as int] < y@[i as int] {
                    lemma_high_decides(x@, y@, i as nat);
                } else {
                    lemma_high_decides(y@, x@, i as nat);
                }
            }
            return (x[i] < y[i], false);
        }
    }
    (false, true)
}

/// Only the digit zero stands for zero.
pub proof fn lemma_positive(ds: Seq<u64>)
    requires
        is_digits(ds),
        ds.len() > 1 || ds[0] > 0,
    ensures
        number(ds) > 0,
{
    let n: nat = (ds.len() - 1) as nat;
    lemma_low_is_all(ds);
    lemma_ten_to_ordered(0, n);
    let t: nat = ten_to(n);
    let d: nat = ds.last() as nat;
    assert(d * t > 0) by (nonlinear_arith)
        requires
            d >= 1,
            t > 0,
    ;
}

/// Of two numbers, the digits from some place on decide.
proof fn lemma_high_decides(x: Seq<u64>, y: Seq<u64>, i: nat)
    requires
        is_digits(x),
        is_digits(y),
        i <= x.len() == y.len(),
        high_digits(x, i) < high_digits(y, i),
    ensures
        number(x) < number(y),
{
    lemma_low_and_high(x, i);
    lemma_low_and_high(y, i);
    lemma_low_bound(x, i);
    let t: nat = ten_to(i);
    let a: nat = high_digits(x, i);
    let b: nat = high_digits(y, i);
    assert(t * a + t <= t * b) by (nonlinear_arith)
        requires
            a + 1 <= b,
    ;
}

/// The text of a number in decimal digits.
pub fn digits_text(ds: &Vec<u64>) -> (s: String)
    requires
        is_digits(ds@),
    ensures
        s@ == decimal(number(ds@)),
{
    let mut s: String = String::new();
    let mut i: usize = ds.len();
    while i > 0
        invariant
            0 <= i <= ds@.len(),
            is_digits(ds@),
            i == ds@.len() ==> s@ == Seq::<char>::empty(),
            i < ds@.len() ==> s@ == decimal(high_digits(ds@, i as nat)),
            i < ds@.len() && ds@.len() > 1 ==> high_digits(ds@, i as nat) > 0,
        decreases i,
    {
        i = i - 1;
        let ghost before: Seq<char> = s@;
        s.append(digit_text(ds[i]));
        proof {
            let h: nat = high_digits(ds@, (i + 1) as nat);
            let d: nat = ds@[i as int] as nat;
            assert(high_digits(ds@, i as nat) == d + 10 * h);
            assert((d + 10 * h) / 10 == h && (d + 10 * h) % 10 == d);
            assert(s@ =~= before.push(digit(d)));
            if i + 1 == ds@.len() {
                assert(h == 0);
                assert(s@ =~= seq![digit(d)]);
            }
        }
    }
    s
}

} // verus!
