//! The texts on the screen.

use crate::float_model::Format;
use crate::float_rounding::{lemma2_to127, lemma_pow2_ordered};
use vstd::arithmetic::power2::{lemma2_to64, lemma_pow2_adds, lemma_pow2_pos, pow2};
use vstd::prelude::*;
use vstd::string::*;

verus! {

/// The pattern of the number one hundred.
pub const HUNDRED: u32 = 0x42c8_0000;

/// The mark that stands for what was cut off.
pub const ELLIPSIS: char = '…';

/// The decimal digit of a number below ten.
pub open spec fn digit(d: nat) -> char {
    (48 + d) as char
}

/// A number in decimal digits, without leading zeros.
pub open spec fn decimal(n: nat) -> Seq<char>
    decreases n,
{
    if n < 10 {
        seq![digit(n)]
    } else {
        decimal(n / 10).push(digit(n % 10))
    }
}

/// `text` with copies of `fill` ahead of it to make it `width` long.
pub open spec fn padded_left(text: Seq<char>, width: nat, fill: char) -> Seq<char> {
    if text.len() < width {
        Seq::new((width - text.len()) as nat, |i: int| fill) + text
    } else {
        text
    }
}

/// `text` with spaces after it to make it `width` long.
pub open spec fn padded_right(text: Seq<char>, width: nat) -> Seq<char> {
    if text.len() < width {
        text + Seq::new((width - text.len()) as nat, |i: int| ' ')
    } else {
        text
    }
}

/// A time in seconds in the format HH:MM:SS, or MM:SS if it is less than an hour. The first
/// field has as many digits as it needs, the others have two.
pub open spec fn time_text(seconds: nat) -> Seq<char> {
    let ss = padded_left(decimal(seconds % 60), 2, '0');
    let mm = seconds / 60 % 60;
    let hh = seconds / 3600;
    if hh > 0 {
        decimal(hh) + seq![':'] + padded_left(decimal(mm), 2, '0') + seq![':'] + ss
    } else {
        decimal(mm) + seq![':'] + ss
    }
}

/// A transposition with its sign, filled up to three characters.
pub open spec fn pitch_text(semitones: int) -> Seq<char> {
    let sign = if semitones < 0 {
        '-'
    } else {
        '+'
    };
    let size = if semitones < 0 {
        -semitones
    } else {
        semitones
    };
    padded_right(seq![sign] + decimal(size as nat), 3)
}

/// A volume in percent: the product with one hundred, rounded to the nearest whole number, the
/// greater one of two equally near, and kept between 0 and 255.
pub open spec fn percent(volume: u32) -> nat {
    let f = Format::Single;
    let product = f.product(volume as u64, HUNDRED as u64) as u64;
    let units = f.units(f.magnitude(product));
    if f.is_nan(product) || f.is_negative(product) {
        0
    } else {
        let rounded = (2 * units + pow2(f.scale())) / (2 * pow2(f.scale()));
        if rounded > 255 {
            255
        } else {
            rounded
        }
    }
}

/// The number of terminal cells that a text takes.
pub uninterp spec fn cell_width(text: Seq<char>) -> nat;

/// Printable characters of ASCII and the ellipsis, which take one cell each.
pub open spec fn is_plain(text: Seq<char>) -> bool {
    forall|i: int| 0 <= i < text.len() ==> ' ' <= #[trigger] text[i] <= '~' || text[i] == ELLIPSIS
}

/// The first `k` characters of a text, and the ellipsis.
pub open spec fn cut(text: Seq<char>, k: int) -> Seq<char> {
    text.take(k).push(ELLIPSIS)
}

/// `r` is `text` if that fits within `max_width` cells, and otherwise as much of its beginning
/// as fits together with an ellipsis. Nothing fits within no cells.
pub open spec fn is_fitted(text: Seq<char>, max_width: nat, r: Seq<char>) -> bool {
    if cell_width(text) <= max_width {
        r == text
    } else if max_width == 0 {
        r == Seq::<char>::empty()
    } else {
        exists|k: int| #[trigger] is_longest_cut(text, max_width, k) && r == cut(text, k)
    }
}

/// What [`is_fitted`] comes to for a plain text: the text if it has no more than `max_width`
/// characters, and otherwise all but one of so many of them, and an ellipsis.
pub open spec fn plainly_fitted(text: Seq<char>, max_width: nat) -> Seq<char> {
    if text.len() <= max_width {
        text
    } else if max_width == 0 {
        Seq::empty()
    } else {
        cut(text, max_width - 1)
    }
}

/// Of the beginnings of `text` that fit with an ellipsis, the one of `k` characters is the
/// longest.
pub open spec fn is_longest_cut(text: Seq<char>, max_width: nat, k: int) -> bool {
    &&& 0 <= k < text.len()
    &&& cell_width(cut(text, k)) <= max_width
    &&& forall|j: int|
        k < j < text.len() ==> cell_width(#[trigger] cut(text, j)) > max_width
}

/// Calls `ratatui::text::Span::width`, which gives the displayed width of a text by the Unicode
/// tables. It depends on the text alone. Stated beside that: the characters from the space to the
/// tilde and the ellipsis take one cell each, so a text of nothing else takes as many cells as it
/// has characters.
#[verifier::external_body]
fn text_width(text: &str) -> (n: usize)
    ensures
        n == cell_width(text@),
        is_plain(text@) ==> n == text@.len(),
{
    ratatui::text::Span::raw(text).width()
}

/// The text of one decimal digit.
pub(crate) fn digit_text(d: u64) -> (s: &'static str)
    requires
        d < 10,
    ensures
        s@ == seq![digit(d as nat)],
{
    proof {
        reveal_strlit("0");
        reveal_strlit("1");
        reveal_strlit("2");
        reveal_strlit("3");
        reveal_strlit("4");
        reveal_strlit("5");
        reveal_strlit("6");
        reveal_strlit("7");
        reveal_strlit("8");
        reveal_strlit("9");
    }
    let s: &'static str = match d {
        0 => "0",
        1 => "1",
        2 => "2",
        3 => "3",
        4 => "4",
        5 => "5",
        6 => "6",
        7 => "7",
        8 => "8",
        _ => "9",
    };
    assert(s@ =~= seq![digit(d as nat)]);
    s
}

/// A number in decimal digits.
pub fn decimal_text(n: u64) -> (s: String)
    ensures
        s@ == decimal(n as nat),
    decreases n,
{
    let mut s: String = if n < 10 {
        String::new()
    } else {
        decimal_text(n / 10)
    };
    s.append(digit_text(n % 10));
    assert(s@ =~= decimal(n as nat));
    s
}

/// A number below one hundred in two decimal digits.
pub(crate) fn two_digits(n: u64) -> (s: String)
    requires
        n < 100,
    ensures
        s@ == padded_left(decimal(n as nat), 2, '0'),
{
    reveal_with_fuel(decimal, 2);
    let mut s: String = String::new();
    s.append(digit_text(n / 10));
    s.append(digit_text(n % 10));
    assert(s@ =~= padded_left(decimal(n as nat), 2, '0'));
    s
}

/// Converts time in seconds to the format HH:MM:SS or MM:SS.
pub fn format_time(seconds: u64) -> (s: String)
    ensures
        s@ == time_text(seconds as nat),
{
    proof {
        reveal_strlit(":");
    }
    let ss: u64 = seconds % 60;
    let mm: u64 = seconds / 60 % 60;
    let hh: u64 = seconds / 3600;
    let mut s: String;
    if hh > 0 {
        s = decimal_text(hh);
        s.append(":");
        s.append(two_digits(mm).as_str());
    } else {
        s = decimal_text(mm);
    }
    s.append(":");
    s.append(two_digits(ss).as_str());
    assert(s@ =~= time_text(seconds as nat));
    s
}

/// A transposition with its sign, filled up to three characters.
pub fn format_pitch(semitones: i8) -> (s: String)
    requires
        -12 <= semitones <= 12,
    ensures
        s@ == pitch_text(semitones as int),
{
    proof {
        reveal_strlit("+");
        reveal_strlit("-");
        reveal_strlit(" ");
        reveal_with_fuel(decimal, 2);
    }
    let mut s: String = String::new();
    let size: u64;
    if semitones < 0 {
        s.append("-");
        size = (-semitones) as u64;
    } else {
        s.append("+");
        size = semitones as u64;
    }
    s.append(decimal_text(size).as_str());
    if size < 10 {
        s.append(" ");
    }
    assert(s@ =~= pitch_text(semitones as int));
    s
}

/// A volume in percent.
pub fn volume_percent(volume: u32) -> (p: u8)
    ensures
        p == percent(volume),
{
    let f: Format = Format::Single;
    let product: u64 = f.mul(volume as u64, HUNDRED as u64);
    let k: u64 = f.magnitude_of(product);
    if k > f.infinity_bits() || k != product {
        return 0;
    }
    let (t, q) = f.split(k);
    let ghost units: nat = f.units(k as nat);
    let ghost scale: nat = pow2(149);
    proof {
        lemma_pow2_pos(149);
        lemma2_to64();
        lemma2_to127();
    }
    if t >= 140 {
        proof {
            lemma_large_percent(t as nat, q as nat);
        }
        return 255;
    }
    let s: u32 = 149 - t;
    if s > 40 {
        proof {
            lemma_small_percent(t as nat, q as nat);
        }
        return 0;
    }
    let w: u64 = crate::float_rounding::two_to(s) as u64;
    proof {
        lemma_pow2_ordered(s as nat, 40);
        vstd::arithmetic::power2::lemma2_to64_rest();
        lemma_pow2_pos(s as nat);
        lemma_pow2_pos(t as nat);
        lemma_pow2_adds(s as nat, t as nat);
        let pt: nat = pow2(t as nat);
        assert(2 * (q * pt) + w * pt == (2 * q + w) * pt && 2 * (w * pt) == (2 * w) * pt)
            by (nonlinear_arith);
        vstd::arithmetic::div_mod::lemma_div_multiples_vanish_quotient(
            pt as int,
            (2 * q + w) as int,
            (2 * w) as int,
        );
        assert(pt * (2 * q + w) == (2 * q + w) * pt && pt * (2 * w) == (2 * w) * pt)
            by (nonlinear_arith);
    }
    let rounded: u64 = (2 * q + w) / (2 * w);
    if rounded > 255 {
        255
    } else {
        rounded as u8
    }
}

/// A number of at least two to the 14 is past 255 percent.
proof fn lemma_large_percent(t: nat, q: nat)
    requires
        t >= 140,
        q >= 0x80_0000,
    ensures
        (2 * (q * pow2(t)) + pow2(149)) / (2 * pow2(149)) > 255,
{
    lemma_pow2_ordered(140, t);
    lemma_pow2_adds(9, 140);
    lemma2_to64();
    let one: nat = pow2(149);
    let p: nat = pow2(140);
    let n: nat = 2 * (q * pow2(t)) + one;
    assert(q * pow2(t) >= 256 * one) by (nonlinear_arith)
        requires
            q >= 0x80_0000,
            pow2(t) >= p,
            one == 512 * p,
    ;
    lemma_pow2_pos(149);
    vstd::arithmetic::div_mod::lemma_fundamental_div_mod(n as int, (2 * one) as int);
    let r: nat = n / (2 * one);
    assert(r > 255) by (nonlinear_arith)
        requires
            n >= 512 * one,
            n == (2 * one) * r + n % (2 * one),
            n % (2 * one) < 2 * one,
            one > 0,
    ;
}

/// A number below two to the minus 16 is no percent.
proof fn lemma_small_percent(t: nat, q: nat)
    requires
        t < 109,
        q < 0x100_0000,
    ensures
        (2 * (q * pow2(t)) + pow2(149)) / (2 * pow2(149)) == 0,
{
    lemma_pow2_ordered(t, 109);
    lemma_pow2_adds(40, 109);
    lemma2_to64();
    vstd::arithmetic::power2::lemma2_to64_rest();
    let one: nat = pow2(149);
    let p: nat = pow2(109);
    lemma_pow2_pos(109);
    assert(2 * (q * pow2(t)) < one) by (nonlinear_arith)
        requires
            q < 0x100_0000,
            pow2(t) <= p,
            one == 0x100_0000_0000 * p,
            p > 0,
    ;
    vstd::arithmetic::div_mod::lemma_basic_div(
        (2 * (q * pow2(t)) + one) as int,
        (2 * one) as int,
    );
}

/// Truncates `text` to fit within `max_width` terminal cells, appending an ellipsis if it had to
/// cut anything.
pub fn truncate_with_ellipsis(text: &str, max_width: usize) -> (r: String)
    ensures
        is_fitted(text@, max_width as nat, r@),
        cell_width(r@) <= max_width,
        is_plain(text@) ==> r@ == plainly_fitted(text@, max_width as nat),
{
    if text_width(text) <= max_width {
        return text.to_owned();
    }
    if max_width == 0 {
        // The empty text takes no cells.
        let empty: &str = "";
        proof {
            reveal_strlit("");
            assert(empty@ =~= Seq::empty());
        }
        let _width: usize = text_width(empty);
        return empty.to_owned();
    }
    proof {
        reveal_strlit("…");
    }
    let mut k: usize = text.unicode_len();
    let ghost len: int = text@.len() as int;
    loop
        invariant
            0 < k <= len,
            len == text@.len(),
            0 < max_width < cell_width(text@),
            is_plain(text@) ==> cell_width(text@) == len,
            is_plain(text@) ==> k >= max_width,
            "…"@ == seq![ELLIPSIS],
            forall|j: int| k <= j < len ==> cell_width(#[trigger] cut(text@, j)) > max_width,
        decreases k,
    {
        k = k - 1;
        let mut r: String = text.substring_char(0, k).to_owned();
        r.append("…");
        assert(r@ =~= cut(text@, k as int));
        let fits: bool = text_width(r.as_str()) <= max_width;
        assert(is_plain(text@) ==> is_plain(r@));
        if fits {
            assert(is_longest_cut(text@, max_width as nat, k as int));
            return r;
        }
        // The ellipsis alone takes one cell.
        assert(k == 0 ==> is_plain(r@));
    }
}

} // verus!
