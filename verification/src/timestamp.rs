//! Time stamps on the command line.

use crate::decimal_float::{
    from_decimal, lemma_decimal_huge, lemma_decimal_tiny, lemma_decimal_zero, nearest_decimal,
};
use crate::digits::{digits_of, is_digits, lemma_number_bounds, number, ten_to, times_plus};
use crate::float_model::Format;
use vstd::prelude::*;

verus! {

/// The pattern of 60.
pub const SIXTY: u64 = 0x4270_0000;

/// The pattern of 3600.
pub const HOUR: u64 = 0x4561_0000;

/// What is wrong with a time stamp.
#[derive(Clone, Copy, PartialEq, Eq, Structural, Debug)]
pub enum TimeError {
    /// Invalid timestamp: more than three fields.
    InvalidTimestamp,
    /// Invalid hours value.
    InvalidHours,
    /// Invalid minutes value.
    InvalidMinutes,
    /// Minutes must be less than 60.
    MinutesTooLarge,
    /// Invalid seconds value.
    InvalidSeconds,
    /// Seconds must be positive.
    NegativeSeconds,
}

impl TimeError {
    /// The message for the user.
    pub open spec fn text(self) -> Seq<char> {
        match self {
            TimeError::InvalidTimestamp => "Invalid timestamp"@,
            TimeError::InvalidHours => "Invalid hours value"@,
            TimeError::InvalidMinutes => "Invalid minutes value"@,
            TimeError::MinutesTooLarge => "Minutes must be less than 60"@,
            TimeError::InvalidSeconds => "Invalid seconds value"@,
            TimeError::NegativeSeconds => "Seconds must be positive"@,
        }
    }

    /// The message for the user.
    pub fn message(self) -> (m: &'static str)
        ensures
            m@ == self.text(),
    {
        match self {
            TimeError::InvalidTimestamp => "Invalid timestamp",
            TimeError::InvalidHours => "Invalid hours value",
            TimeError::InvalidMinutes => "Invalid minutes value",
            TimeError::MinutesTooLarge => "Minutes must be less than 60",
            TimeError::InvalidSeconds => "Invalid seconds value",
            TimeError::NegativeSeconds => "Seconds must be positive",
        }
    }
}

/// White space: the characters that a time stamp may have around it.
pub open spec fn is_space(c: char) -> bool {
    ||| '\u{9}' <= c <= '\u{d}'
    ||| c == ' '
    ||| c == '\u{85}'
    ||| c == '\u{a0}'
    ||| c == '\u{1680}'
    ||| '\u{2000}' <= c <= '\u{200a}'
    ||| c == '\u{2028}'
    ||| c == '\u{2029}'
    ||| c == '\u{202f}'
    ||| c == '\u{205f}'
    ||| c == '\u{3000}'
}

/// A text without white space ahead.
pub open spec fn trimmed_start(s: Seq<char>) -> Seq<char>
    decreases s.len(),
{
    if s.len() > 0 && is_space(s[0]) {
        trimmed_start(s.drop_first())
    } else {
        s
    }
}

/// A text without white space at its end.
pub open spec fn trimmed_end(s: Seq<char>) -> Seq<char>
    decreases s.len(),
{
    if s.len() > 0 && is_space(s.last()) {
        trimmed_end(s.drop_last())
    } else {
        s
    }
}

/// The fields of a text, which colons separate.
pub open spec fn fields(s: Seq<char>) -> Seq<Seq<char>>
    decreases s.len(),
{
    if s.len() == 0 {
        seq![Seq::empty()]
    } else {
        let before = fields(s.drop_last());
        if s.last() == ':' {
            before.push(Seq::empty())
        } else {
            before.drop_last().push(before.last().push(s.last()))
        }
    }
}

pub open spec fn is_digit(c: char) -> bool {
    '0' <= c <= '9'
}

/// A text of nothing but digits.
pub open spec fn all_digits(s: Seq<char>) -> bool {
    forall|i: int| 0 <= i < s.len() ==> is_digit(#[trigger] s[i])
}

/// The number that digits stand for.
pub open spec fn digits_value(s: Seq<char>) -> nat
    decreases s.len(),
{
    if s.len() == 0 {
        0
    } else {
        10 * digits_value(s.drop_last()) + (s.last() as int - 48) as nat
    }
}

/// A whole number: an optional plus sign followed by only digits, no more than `max`.
pub open spec fn whole_value(s: Seq<char>, max: nat) -> Option<nat> {
    let digits = if s.len() > 0 && s[0] == '+' {
        s.drop_first()
    } else {
        s
    };
    if digits.len() > 0 && all_digits(digits) && digits_value(digits) <= max {
        Some(digits_value(digits))
    } else {
        None
    }
}

/// Where the digits that start at `from` end.
pub open spec fn digits_end(s: Seq<char>, from: nat) -> nat
    decreases s.len() - from,
{
    if from < s.len() && is_digit(s[from as int]) {
        digits_end(s, from + 1)
    } else {
        from
    }
}

/// A text with its sign taken off, and whether that was a minus.
pub open spec fn unsigned(s: Seq<char>) -> (bool, Seq<char>) {
    if s.len() > 0 && s[0] == '-' {
        (true, s.drop_first())
    } else if s.len() > 0 && s[0] == '+' {
        (false, s.drop_first())
    } else {
        (false, s)
    }
}

/// The exponent that a decimal number ends with: none at all, or an `e` and a whole number with
/// an optional sign.
pub open spec fn exponent_value(s: Seq<char>) -> Option<int> {
    if s.len() == 0 {
        Some(0)
    } else if s[0] == 'e' || s[0] == 'E' {
        let (negative, digits) = unsigned(s.drop_first());
        if digits.len() > 0 && all_digits(digits) {
            Some(
                if negative {
                    -(digits_value(digits) as int)
                } else {
                    digits_value(digits) as int
                },
            )
        } else {
            None
        }
    } else {
        None
    }
}

/// A decimal number without a sign: digits with an optional point among them or beside them, and
/// an optional exponent. Its value is the first number times ten to the second.
pub open spec fn decimal_value(s: Seq<char>) -> Option<(nat, int)> {
    let i = digits_end(s, 0);
    let point = i < s.len() && s[i as int] == '.';
    let j = if point {
        digits_end(s, i + 1)
    } else {
        i
    };
    let fraction = if point {
        s.subrange((i + 1) as int, j as int)
    } else {
        Seq::empty()
    };
    let exponent = exponent_value(s.skip(j as int));
    if i + fraction.len() == 0 || exponent is None {
        None
    } else {
        Some((digits_value(s.take(i as int) + fraction), exponent->0 - fraction.len()))
    }
}

/// A letter of ASCII in lower case.
pub open spec fn lower(c: char) -> char {
    if 'A' <= c <= 'Z' {
        (c as int + 32) as char
    } else {
        c
    }
}

/// Whether a text is `word`, in upper or lower case.
pub open spec fn is_word(s: Seq<char>, word: Seq<char>) -> bool {
    s.len() == word.len() && forall|i: int| 0 <= i < s.len() ==> lower(#[trigger] s[i]) == word[i]
}

/// The pattern of the floating-point number that a text denotes: the nearest one to a decimal
/// number with an optional sign, or infinity, or not a number.
pub open spec fn float_value(s: Seq<char>) -> Option<nat> {
    let f = Format::Single;
    let (negative, rest) = unsigned(s);
    if is_word(rest, seq!['n', 'a', 'n']) {
        Some(f.not_a_number())
    } else if is_word(rest, seq!['i', 'n', 'f']) || is_word(
        rest,
        seq!['i', 'n', 'f', 'i', 'n', 'i', 't', 'y'],
    ) {
        Some(f.signed(negative, f.infinity()))
    } else {
        match decimal_value(rest) {
            Some((m, x)) => Some(f.signed(negative, nearest_decimal(m, x))),
            None => None,
        }
    }
}

/// The seconds of a time stamp.
pub open spec fn seconds_value(s: Seq<char>) -> Result<u64, TimeError> {
    match float_value(s) {
        Some(bits) => if Format::Single.is_nan(bits as u64) || Format::Single.less(bits as u64, 0) {
            Err(TimeError::NegativeSeconds)
        } else {
            Ok(bits as u64)
        },
        None => Err(TimeError::InvalidSeconds),
    }
}

/// The minutes of a time stamp.
pub open spec fn minutes_value(s: Seq<char>) -> Result<nat, TimeError> {
    match whole_value(s, 255) {
        Some(n) => if n < 60 {
            Ok(n)
        } else {
            Err(TimeError::MinutesTooLarge)
        },
        None => Err(TimeError::InvalidMinutes),
    }
}

/// The hours of a time stamp.
pub open spec fn hours_value(s: Seq<char>) -> Result<nat, TimeError> {
    match whole_value(s, usize::MAX as nat) {
        Some(n) => Ok(n),
        None => Err(TimeError::InvalidHours),
    }
}

/// Minutes and seconds in seconds, each step rounded.
pub open spec fn minutes_and_seconds(minutes: nat, seconds: u64) -> nat {
    let f = Format::Single;
    f.sum(f.product(SIXTY, f.whole(minutes) as u64) as u64, seconds)
}

/// Hours, minutes and seconds in seconds, each step rounded.
pub open spec fn hours_minutes_and_seconds(hours: nat, minutes: nat, seconds: u64) -> nat {
    let f = Format::Single;
    let h = f.product(HOUR, f.whole(hours) as u64);
    let m = f.product(SIXTY, f.whole(minutes) as u64);
    f.sum(f.sum(h as u64, m as u64) as u64, seconds)
}

/// The time that a time stamp denotes, as the pattern of a floating-point number of seconds. Of
/// several errors the one in the first field counts.
pub open spec fn time_value(s: Seq<char>) -> Result<nat, TimeError> {
    let parts = fields(trimmed_end(trimmed_start(s)));
    if parts.len() == 1 {
        match seconds_value(parts[0]) {
            Ok(ss) => Ok(ss as nat),
            Err(e) => Err(e),
        }
    } else if parts.len() == 2 {
        match (minutes_value(parts[0]), seconds_value(parts[1])) {
            (Err(e), _) => Err(e),
            (_, Err(e)) => Err(e),
            (Ok(mm), Ok(ss)) => Ok(minutes_and_seconds(mm, ss)),
        }
    } else if parts.len() == 3 {
        match (hours_value(parts[0]), minutes_value(parts[1]), seconds_value(parts[2])) {
            (Err(e), _, _) => Err(e),
            (_, Err(e), _) => Err(e),
            (_, _, Err(e)) => Err(e),
            (Ok(hh), Ok(mm), Ok(ss)) => Ok(hours_minutes_and_seconds(hh, mm, ss)),
        }
    } else {
        Err(TimeError::InvalidTimestamp)
    }
}

/// The characters of a text.
fn characters(s: &str) -> (r: Vec<char>)
    ensures
        r@ == s@,
{
    let mut r: Vec<char> = Vec::new();
    for c in it: s.chars()
        invariant
            r@ == s@.take(it.index() as int),
            it.seq() == s@,
    {
        r.push(c);
        assert(s@.take(it.index() + 1) =~= s@.take(it.index() as int).push(c));
    }
    assert(s@.take(s@.len() as int) =~= s@);
    r
}

/// Whether a character is white space.
fn is_space_char(c: char) -> (r: bool)
    ensures
        r == is_space(c),
{
    ('\u{9}' <= c && c <= '\u{d}') || c == ' ' || c == '\u{85}' || c == '\u{a0}' || c
        == '\u{1680}' || ('\u{2000}' <= c && c <= '\u{200a}') || c == '\u{2028}' || c
        == '\u{2029}' || c == '\u{202f}' || c == '\u{205f}' || c == '\u{3000}'
}

/// A part of a text.
fn part(s: &Vec<char>, from: usize, to: usize) -> (r: Vec<char>)
    requires
        from <= to <= s@.len(),
    ensures
        r@ == s@.subrange(from as int, to as int),
{
    let mut r: Vec<char> = Vec::new();
    let mut i: usize = from;
    while i < to
        invariant
            from <= i <= to <= s@.len(),
            r@ == s@.subrange(from as int, i as int),
        decreases to - i,
    {
        r.push(s[i]);
        i = i + 1;
        assert(r@ =~= s@.subrange(from as int, i as int));
    }
    r
}

/// A text without white space around it.
fn trim(s: &Vec<char>) -> (r: Vec<char>)
    ensures
        r@ == trimmed_end(trimmed_start(s@)),
{
    let mut from: usize = 0;
    assert(s@.skip(0) =~= s@);
    while from < s.len() && is_space_char(s[from])
        invariant
            from <= s@.len(),
            trimmed_start(s@) == trimmed_start(s@.skip(from as int)),
        decreases s@.len() - from,
    {
        assert(s@.skip(from as int).drop_first() =~= s@.skip(from + 1));
        from = from + 1;
    }
    let ghost t: Seq<char> = s@.skip(from as int);
    assert(trimmed_start(s@) == t);
    let mut to: usize = s.len();
    assert(t.take(to - from) =~= t);
    while from < to && is_space_char(s[to - 1])
        invariant
            from <= to <= s@.len(),
            t == s@.skip(from as int),
            trimmed_end(t) == trimmed_end(t.take(to - from)),
        decreases to,
    {
        assert(t.take(to - from).drop_last() =~= t.take(to - 1 - from));
        assert(t.take(to - from).last() == s@[to - 1]);
        to = to - 1;
    }
    assert(t.take(to - from) =~= s@.subrange(from as int, to as int));
    part(s, from, to)
}

/// Texts as sequences.
spec fn texts(v: Seq<Vec<char>>) -> Seq<Seq<char>> {
    Seq::new(v.len(), |i: int| v[i]@)
}

/// The fields of a text.
fn split_fields(s: &Vec<char>) -> (r: Vec<Vec<char>>)
    ensures
        texts(r@) == fields(s@),
{
    let mut done: Vec<Vec<char>> = Vec::new();
    let mut current: Vec<char> = Vec::new();
    let mut i: usize = 0;
    assert(s@.take(0) =~= Seq::<char>::empty());
    assert(texts(done@).push(current@) =~= fields(s@.take(0)));
    while i < s.len()
        invariant
            i <= s@.len(),
            texts(done@).push(current@) == fields(s@.take(i as int)),
        decreases s@.len() - i,
    {
        let c: char = s[i];
        proof {
            assert(s@.take(i + 1).drop_last() =~= s@.take(i as int));
            assert(s@.take(i + 1).last() == c);
            assert(texts(done@).push(current@).drop_last() =~= texts(done@));
        }
        if c == ':' {
            let ghost before: Seq<Vec<char>> = done@;
            let ghost field: Seq<char> = current@;
            done.push(current);
            current = Vec::new();
            assert(texts(done@) =~= texts(before).push(field));
            assert(texts(done@).push(current@) =~= fields(s@.take(i + 1)));
        } else {
            current.push(c);
            assert(texts(done@).push(current@) =~= fields(s@.take(i + 1)));
        }
        i = i + 1;
    }
    assert(s@.take(i as int) =~= s@);
    let ghost before: Seq<Vec<char>> = done@;
    let ghost field: Seq<char> = current@;
    done.push(current);
    assert(texts(done@) =~= texts(before).push(field));
    done
}

/// More digits make no smaller number.
proof fn lemma_digits_grow(s: Seq<char>, i: nat)
    requires
        i <= s.len(),
        all_digits(s),
    ensures
        digits_value(s.take(i as int)) <= digits_value(s),
    decreases s.len(),
{
    if i == s.len() {
        assert(s.take(i as int) =~= s);
    } else {
        assert(s.drop_last().take(i as int) =~= s.take(i as int));
        lemma_digits_grow(s.drop_last(), i);
    }
}

/// A whole number no more than `max`.
fn parse_whole(s: &Vec<char>, max: u64) -> (r: Option<u64>)
    ensures
        r is Some <==> whole_value(s@, max as nat) is Some,
        r is Some ==> r->0 == whole_value(s@, max as nat)->0,
{
    let from: usize = if s.len() > 0 && s[0] == '+' {
        1
    } else {
        0
    };
    let ghost digits: Seq<char> = if s@.len() > 0 && s@[0] == '+' {
        s@.drop_first()
    } else {
        s@
    };
    assert(digits =~= s@.skip(from as int));
    if from == s.len() {
        return None;
    }
    let mut value: u128 = 0;
    let mut i: usize = from;
    assert(digits.take(0) =~= Seq::<char>::empty());
    while i < s.len()
        invariant
            from <= i <= s@.len(),
            digits == s@.skip(from as int),
            digits.len() > 0,
            digits == (if s@.len() > 0 && s@[0] == '+' {
                s@.drop_first()
            } else {
                s@
            }),
            all_digits(digits.take(i - from)),
            value == digits_value(digits.take(i - from)),
            value <= max,
        decreases s@.len() - i,
    {
        let c: char = s[i];
        assert(digits[i - from] == c);
        if c < '0' || c > '9' {
            return None;
        }
        let next: u128 = value * 10 + (c as u32 - 48) as u128;
        proof {
            assert(digits.take(i + 1 - from).drop_last() =~= digits.take(i - from));
            assert(all_digits(digits.take(i + 1 - from))) by {
                assert forall|j: int| 0 <= j < i + 1 - from implies is_digit(
                    #[trigger] digits.take(i + 1 - from)[j],
                ) by {
                    if j < i - from {
                        assert(digits.take(i - from)[j] == digits[j]);
                    }
                }
            }
        }
        if next > max as u128 {
            proof {
                if all_digits(digits) {
                    lemma_digits_grow(digits, (i + 1 - from) as nat);
                }
            }
            return None;
        }
        value = next;
        i = i + 1;
    }
    assert(digits.take(i - from) =~= digits);
    Some(value as u64)
}

/// Where the digits that start at `from` end.
fn end_of_digits(s: &Vec<char>, from: usize) -> (end: usize)
    requires
        from <= s@.len(),
    ensures
        end == digits_end(s@, from as nat),
        from <= end <= s@.len(),
        all_digits(s@.subrange(from as int, end as int)),
{
    let mut end: usize = from;
    while end < s.len() && '0' <= s[end] && s[end] <= '9'
        invariant
            from <= end <= s@.len(),
            digits_end(s@, from as nat) == digits_end(s@, end as nat),
            all_digits(s@.subrange(from as int, end as int)),
        decreases s@.len() - end,
    {
        let ghost before: Seq<char> = s@.subrange(from as int, end as int);
        assert forall|j: int| 0 <= j < end + 1 - from implies is_digit(
            #[trigger] s@.subrange(from as int, end + 1)[j],
        ) by {
            if j < end - from {
                assert(before[j] == s@[from + j]);
            }
        }
        end = end + 1;
    }
    end
}

/// A number in decimal digits with more digits after it.
fn with_digits(
    ds: &Vec<u64>,
    s: &Vec<char>,
    from: usize,
    to: usize,
    Ghost(ahead): Ghost<Seq<char>>,
) -> (r: Vec<u64>)
    requires
        is_digits(ds@),
        number(ds@) == digits_value(ahead),
        from <= to <= s@.len(),
        all_digits(s@.subrange(from as int, to as int)),
    ensures
        is_digits(r@),
        number(r@) == digits_value(ahead + s@.subrange(from as int, to as int)),
{
    let mut r: Vec<u64> = times_plus(ds, 1, 0);
    let mut i: usize = from;
    let ghost digits: Seq<char> = s@.subrange(from as int, to as int);
    assert(ahead + digits.take(0) =~= ahead);
    assert(number(ds@) * 1 == number(ds@));
    while i < to
        invariant
            from <= i <= to <= s@.len(),
            digits == s@.subrange(from as int, to as int),
            all_digits(digits),
            is_digits(r@),
            number(r@) == digits_value(ahead + digits.take(i - from)),
        decreases to - i,
    {
        let c: char = s[i];
        assert(digits[i - from] == c);
        proof {
            let longer: Seq<char> = ahead + digits.take(i + 1 - from);
            assert(longer.drop_last() =~= ahead + digits.take(i - from));
            assert(longer.last() == c);
        }
        r = times_plus(&r, 10, (c as u32 - 48) as u64);
        i = i + 1;
    }
    assert(digits.take(to - from) =~= digits);
    r
}

/// An exponent so far from zero that no number of digits can make up for it.
const FAR: i128 = 0x1_0000_0000_0000_0000_0000;

/// An exponent, kept from going further than [`FAR`].
spec fn kept_near(x: int) -> int {
    if x > FAR {
        FAR as int
    } else if x < -FAR {
        -FAR
    } else {
        x
    }
}

/// The exponent that a decimal number ends with.
fn parse_exponent(s: &Vec<char>, from: usize) -> (r: Option<i128>)
    requires
        from <= s@.len(),
    ensures
        r is Some <==> exponent_value(s@.skip(from as int)) is Some,
        r is Some ==> r->0 == kept_near(exponent_value(s@.skip(from as int))->0),
{
    let ghost t: Seq<char> = s@.skip(from as int);
    if from == s.len() {
        return Some(0);
    }
    if s[from] != 'e' && s[from] != 'E' {
        return None;
    }
    let mut start: usize = from + 1;
    let mut negative: bool = false;
    if start < s.len() && (s[start] == '-' || s[start] == '+') {
        negative = s[start] == '-';
        start = start + 1;
    }
    let ghost digits: Seq<char> = unsigned(t.drop_first()).1;
    assert(digits =~= s@.skip(start as int));
    assert(negative == unsigned(t.drop_first()).0);
    if start == s.len() {
        return None;
    }
    let mut value: i128 = 0;
    let mut i: usize = start;
    assert(digits.take(0) =~= Seq::<char>::empty());
    while i < s.len()
        invariant
            start <= i <= s@.len(),
            t == s@.skip(from as int),
            t.len() > 0,
            t[0] == 'e' || t[0] == 'E',
            digits == unsigned(t.drop_first()).1,
            digits == s@.skip(start as int),
            digits.len() > 0,
            all_digits(digits.take(i - start)),
            value == kept_near(digits_value(digits.take(i - start)) as int),
            0 <= value,
        decreases s@.len() - i,
    {
        let c: char = s[i];
        assert(digits[i - start] == c);
        if c < '0' || c > '9' {
            return None;
        }
        proof {
            assert(digits.take(i + 1 - start).drop_last() =~= digits.take(i - start));
            assert(all_digits(digits.take(i + 1 - start))) by {
                assert forall|j: int| 0 <= j < i + 1 - start implies is_digit(
                    #[trigger] digits.take(i + 1 - start)[j],
                ) by {
                    if j < i - start {
                        assert(digits.take(i - start)[j] == digits[j]);
                    }
                }
            }
        }
        value = value * 10 + (c as u32 - 48) as i128;
        if value > FAR {
            value = FAR;
        }
        i = i + 1;
    }
    assert(digits.take(i - start) =~= digits);
    if negative {
        Some(-value)
    } else {
        Some(value)
    }
}

/// An exponent that is kept near gives the same number.
proof fn lemma_kept_near(m: nat, l: nat, e: int, places: nat)
    requires
        m < ten_to(l),
        l <= 0x1_0000_0000_0000_0000,
        places <= 0x1_0000_0000_0000_0000,
    ensures
        nearest_decimal(m, kept_near(e) - places) == nearest_decimal(m, e - places),
{
    if m == 0 {
        lemma_decimal_zero(kept_near(e) - places);
        lemma_decimal_zero(e - places);
    } else if e > FAR {
        lemma_decimal_huge(m, kept_near(e) - places);
        lemma_decimal_huge(m, e - places);
    } else if e < -FAR {
        lemma_decimal_tiny(m, l, kept_near(e) - places);
        lemma_decimal_tiny(m, l, e - places);
    }
}

/// The pattern of a decimal number without a sign.
fn parse_decimal(s: &Vec<char>) -> (r: Option<u64>)
    ensures
        r is Some <==> decimal_value(s@) is Some,
        r is Some ==> r->0 == nearest_decimal((decimal_value(s@)->0).0, (decimal_value(s@)->0).1),
        r is Some ==> r->0 <= Format::Single.infinity(),
{
    let i: usize = end_of_digits(s, 0);
    let zero: Vec<u64> = digits_of(0);
    assert(s@.subrange(0, i as int) =~= s@.take(i as int));
    assert(Seq::<char>::empty() + s@.take(i as int) =~= s@.take(i as int));
    let whole: Vec<u64> = with_digits(&zero, s, 0, i, Ghost(Seq::empty()));
    let mut j: usize = i;
    let mut places: usize = 0;
    let mut all: Vec<u64> = whole;
    let ghost mut fraction: Seq<char> = Seq::empty();
    assert(s@.take(i as int) + fraction =~= s@.take(i as int));
    if i < s.len() && s[i] == '.' {
        j = end_of_digits(s, i + 1);
        places = j - (i + 1);
        all = with_digits(&all, s, i + 1, j, Ghost(s@.take(i as int)));
        proof {
            fraction = s@.subrange(i + 1, j as int);
        }
    }
    let exponent: Option<i128> = parse_exponent(s, j);
    if i == 0 && places == 0 {
        return None;
    }
    match exponent {
        Some(e) => {
            proof {
                lemma_number_bounds(all@);
                lemma_kept_near(
                    number(all@),
                    all@.len(),
                    exponent_value(s@.skip(j as int))->0,
                    places as nat,
                );
            }
            Some(from_decimal(&all, e - places as i128))
        },
        None => None,
    }
}

/// Whether a text from `from` on is `word`, in upper or lower case.
fn matches_word(s: &Vec<char>, from: usize, word: &str) -> (r: bool)
    requires
        from <= s@.len(),
    ensures
        r == is_word(s@.skip(from as int), word@),
{
    let w: Vec<char> = characters(word);
    let ghost t: Seq<char> = s@.skip(from as int);
    if s.len() - from != w.len() {
        return false;
    }
    let mut i: usize = 0;
    while i < w.len()
        invariant
            i <= w@.len(),
            from <= s@.len(),
            w@ == word@,
            t == s@.skip(from as int),
            t.len() == w@.len(),
            from + w.len() == s.len(),
            forall|j: int| 0 <= j < i ==> lower(#[trigger] t[j]) == w@[j],
        decreases w@.len() - i,
    {
        let c: char = s[from + i];
        assert(t[i as int] == c);
        let l: char = if 'A' <= c && c <= 'Z' {
            (c as u8 + 32) as char
        } else {
            c
        };
        if l != w[i] {
            return false;
        }
        i = i + 1;
    }
    true
}

/// The pattern of the floating-point number that a text denotes.
fn parse_float(s: &Vec<char>) -> (r: Option<u64>)
    ensures
        r is Some <==> float_value(s@) is Some,
        r is Some ==> r->0 == float_value(s@)->0 && Format::Single.holds(r->0),
{
    let f: Format = Format::Single;
    let mut from: usize = 0;
    let mut negative: bool = false;
    if s.len() > 0 && (s[0] == '-' || s[0] == '+') {
        negative = s[0] == '-';
        from = 1;
    }
    let ghost rest: Seq<char> = unsigned(s@).1;
    assert(rest =~= s@.skip(from as int));
    proof {
        reveal_strlit("nan");
        reveal_strlit("inf");
        reveal_strlit("infinity");
        assert("nan"@ =~= seq!['n', 'a', 'n']);
        assert("inf"@ =~= seq!['i', 'n', 'f']);
        assert("infinity"@ =~= seq!['i', 'n', 'f', 'i', 'n', 'i', 't', 'y']);
    }
    if matches_word(s, from, "nan") {
        return Some(f.nan_bits());
    }
    if matches_word(s, from, "inf") || matches_word(s, from, "infinity") {
        return Some(f.with_sign(negative, f.infinity_bits()));
    }
    let number: Vec<char> = part(s, from, s.len());
    assert(number@ =~= rest);
    match parse_decimal(&number) {
        Some(k) => Some(f.with_sign(negative, k)),
        None => None,
    }
}

/// The seconds of a time stamp.
fn seconds(s: &Vec<char>) -> (r: Result<u64, TimeError>)
    ensures
        r == seconds_value(s@),
        r is Ok ==> Format::Single.holds(r->Ok_0),
{
    let f: Format = Format::Single;
    match parse_float(s) {
        Some(bits) => if f.magnitude_of(bits) > f.infinity_bits() || f.lt(bits, 0) {
            Err(TimeError::NegativeSeconds)
        } else {
            Ok(bits)
        },
        None => Err(TimeError::InvalidSeconds),
    }
}

/// The minutes of a time stamp.
fn minutes(s: &Vec<char>) -> (r: Result<u64, TimeError>)
    ensures
        match r {
            Ok(n) => minutes_value(s@) == Ok::<nat, TimeError>(n as nat),
            Err(e) => minutes_value(s@) == Err::<nat, TimeError>(e),
        },
{
    match parse_whole(s, 255) {
        Some(n) => if n < 60 {
            Ok(n)
        } else {
            Err(TimeError::MinutesTooLarge)
        },
        None => Err(TimeError::InvalidMinutes),
    }
}

/// The hours of a time stamp.
fn hours(s: &Vec<char>) -> (r: Result<u64, TimeError>)
    ensures
        match r {
            Ok(n) => hours_value(s@) == Ok::<nat, TimeError>(n as nat),
            Err(e) => hours_value(s@) == Err::<nat, TimeError>(e),
        },
{
    match parse_whole(s, usize::MAX as u64) {
        Some(n) => Ok(n),
        None => Err(TimeError::InvalidHours),
    }
}

/// Converts a timestamp in the format HH:MM:SS.XXX or MM:SS.XXX, or only SS.XXX, to fractional
/// seconds, as the pattern of a floating-point number.
pub fn parse_time(s: &str) -> (r: Result<u32, TimeError>)
    ensures
        match r {
            Ok(bits) => time_value(s@) == Ok::<nat, TimeError>(bits as nat),
            Err(e) => time_value(s@) == Err::<nat, TimeError>(e),
        },
{
    let f: Format = Format::Single;
    let text: Vec<char> = trim(&characters(s));
    let parts: Vec<Vec<char>> = split_fields(&text);
    let ghost views: Seq<Seq<char>> = texts(parts@);
    assert(views.len() == parts@.len());
    if parts.len() == 1 {
        assert(views[0] == parts@[0]@);
        match seconds(&parts[0]) {
            Ok(ss) => Ok(ss as u32),
            Err(e) => Err(e),
        }
    } else if parts.len() == 2 {
        assert(views[0] == parts@[0]@ && views[1] == parts@[1]@);
        let mm: u64 = match minutes(&parts[0]) {
            Ok(n) => n,
            Err(e) => return Err(e),
        };
        let ss: u64 = match seconds(&parts[1]) {
            Ok(bits) => bits,
            Err(e) => return Err(e),
        };
        Ok(f.add(f.mul(SIXTY, f.from_whole(mm)), ss) as u32)
    } else if parts.len() == 3 {
        assert(views[0] == parts@[0]@ && views[1] == parts@[1]@ && views[2] == parts@[2]@);
        let hh: u64 = match hours(&parts[0]) {
            Ok(n) => n,
            Err(e) => return Err(e),
        };
        let mm: u64 = match minutes(&parts[1]) {
            Ok(n) => n,
            Err(e) => return Err(e),
        };
        let ss: u64 = match seconds(&parts[2]) {
            Ok(bits) => bits,
            Err(e) => return Err(e),
        };
        let h: u64 = f.mul(HOUR, f.from_whole(hh));
        let m: u64 = f.mul(SIXTY, f.from_whole(mm));
        Ok(f.add(f.add(h, m), ss) as u32)
    } else {
        Err(TimeError::InvalidTimestamp)
    }
}

} // verus!
