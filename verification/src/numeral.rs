//! Decimal numerals in text.

use crate::decimal;
use crate::text;
use vstd::prelude::*;

verus! {

/// The character is a decimal digit.
pub open spec fn is_digit(c: char) -> bool {
    '0' <= c <= '9'
}

/// How many digits and points a text begins with.
pub open spec fn numeral_len(s: Seq<char>) -> nat
    decreases s.len(),
{
    if s.len() > 0 && (is_digit(s[0]) || s[0] == '.') {
        1 + numeral_len(s.skip(1))
    } else {
        0
    }
}

/// How many characters stand before the first point.
pub open spec fn point_at(s: Seq<char>) -> nat
    decreases s.len(),
{
    if s.len() > 0 && s[0] != '.' {
        1 + point_at(s.skip(1))
    } else {
        0
    }
}

/// The digits before the point.
pub open spec fn whole_part(s: Seq<char>) -> Seq<char> {
    s.take(point_at(s) as int)
}

/// The digits after the point.
pub open spec fn fraction_part(s: Seq<char>) -> Seq<char> {
    if point_at(s) < s.len() {
        s.skip(point_at(s) as int + 1)
    } else {
        Seq::empty()
    }
}

/// Every character is a decimal digit.
pub open spec fn digits_only(s: Seq<char>) -> bool {
    forall|i: int| 0 <= i < s.len() ==> is_digit(#[trigger] s[i])
}

/// The text is a number: digits with at most one point among them, and at
/// least one digit.
pub open spec fn is_numeral(s: Seq<char>) -> bool {
    &&& digits_only(whole_part(s))
    &&& digits_only(fraction_part(s))
    &&& whole_part(s).len() + fraction_part(s).len() > 0
}

/// The values of digits.
pub open spec fn digit_values(s: Seq<char>) -> Seq<u8> {
    s.map_values(|c: char| (c as u8 - 48) as u8)
}

/// Tells whether a character is a decimal digit.
pub fn digit(c: char) -> (r: bool)
    ensures
        r == is_digit(c),
{
    '0' <= c && c <= '9'
}

/// Reads digits; `None` where something else stands among them.
pub fn read_digits(chars: &Vec<char>, lo: usize, hi: usize) -> (r: Option<Vec<u8>>)
    requires
        lo <= hi <= chars@.len(),
    ensures
        match r {
            Some(d) => digits_only(chars@.subrange(lo as int, hi as int)) && d@ == digit_values(
                chars@.subrange(lo as int, hi as int),
            ) && decimal::all_digits(d@),
            None => !digits_only(chars@.subrange(lo as int, hi as int)),
        },
{
    let ghost part = chars@.subrange(lo as int, hi as int);
    let mut out: Vec<u8> = Vec::new();
    let mut i: usize = lo;
    while i < hi
        invariant
            lo <= i <= hi <= chars@.len(),
            part == chars@.subrange(lo as int, hi as int),
            out@.len() == i - lo,
            forall|j: int| 0 <= j < i - lo ==> is_digit(#[trigger] part[j]),
            forall|j: int|
                0 <= j < i - lo ==> #[trigger] out@[j] == (part[j] as u8 - 48) as u8 && out@[j] <= 9,
        decreases hi - i,
    {
        let c = chars[i];
        assert(part[i - lo] == c);
        if !digit(c) {
            return None;
        }
        out.push((c as u8) - 48);
        i = i + 1;
    }
    assert(out@ =~= digit_values(part));
    Some(out)
}

/// Counts the digits and points that a text has from position `lo` on.
pub fn numeral_end(chars: &Vec<char>, lo: usize) -> (hi: usize)
    requires
        lo <= chars@.len(),
    ensures
        lo <= hi <= chars@.len(),
        hi == lo + numeral_len(chars@.skip(lo as int)),
{
    let n = chars.len();
    let mut hi: usize = lo;
    while hi < n && (digit(chars[hi]) || chars[hi] == '.')
        invariant
            n == chars@.len(),
            lo <= hi <= n,
            numeral_len(chars@.skip(lo as int)) == hi - lo + numeral_len(chars@.skip(hi as int)),
        decreases n - hi,
    {
        assert(chars@.skip(hi as int).skip(1) =~= chars@.skip(hi + 1));
        hi = hi + 1;
    }
    hi
}

/// Reads the numeral between two positions: its digits before and after the
/// point. `None` where there is none.
pub fn read_numeral(chars: &Vec<char>, lo: usize, hi: usize) -> (r: Option<(Vec<u8>, Vec<u8>)>)
    requires
        lo <= hi <= chars@.len(),
    ensures
        ({
            let num = chars@.subrange(lo as int, hi as int);
            match r {
                Some((whole, frac)) => {
                    &&& is_numeral(num)
                    &&& whole@ == digit_values(whole_part(num))
                    &&& frac@ == digit_values(fraction_part(num))
                    &&& decimal::all_digits(whole@)
                    &&& decimal::all_digits(frac@)
                },
                None => !is_numeral(num),
            }
        }),
{
    let ghost num = chars@.subrange(lo as int, hi as int);
    let mut point: usize = lo;
    assert(num.skip(0) =~= num);
    while point < hi && chars[point] != '.'
        invariant
            lo <= point <= hi <= chars@.len(),
            num == chars@.subrange(lo as int, hi as int),
            point_at(num) == point - lo + point_at(num.skip(point - lo)),
        decreases hi - point,
    {
        assert(num.skip(point - lo).skip(1) =~= num.skip(point + 1 - lo));
        point = point + 1;
    }
    assert(point_at(num) == point - lo);
    let after: usize = if point < hi {
        point + 1
    } else {
        hi
    };
    assert(chars@.subrange(lo as int, point as int) =~= whole_part(num));
    assert(chars@.subrange(after as int, hi as int) =~= fraction_part(num));
    let whole = match read_digits(chars, lo, point) {
        Some(d) => d,
        None => {
            return None;
        },
    };
    let frac = match read_digits(chars, after, hi) {
        Some(d) => d,
        None => {
            return None;
        },
    };
    if whole.len() == 0 && frac.len() == 0 {
        return None;
    }
    Some((whole, frac))
}

/// A text of digits and points is a numeral as far as it goes: what follows
/// and is neither does not belong to it.
pub proof fn lemma_numeral_len(num: Seq<char>, rest: Seq<char>)
    requires
        forall|i: int| 0 <= i < num.len() ==> is_digit(#[trigger] num[i]) || num[i] == '.',
        rest.len() > 0 ==> !is_digit(rest[0]) && rest[0] != '.',
    ensures
        numeral_len(num + rest) == num.len(),
        (num + rest).take(num.len() as int) == num,
        (num + rest).skip(num.len() as int) == rest,
    decreases num.len(),
{
    let s = num + rest;
    assert(s.take(num.len() as int) =~= num);
    assert(s.skip(num.len() as int) =~= rest);
    if num.len() == 0 {
        assert(s =~= rest);
    } else {
        assert(s[0] == num[0]);
        assert(s.skip(1) =~= num.skip(1) + rest);
        lemma_numeral_len(num.skip(1), rest);
    }
}

proof fn lemma_point_at(whole: Seq<char>, rest: Seq<char>)
    requires
        digits_only(whole),
        rest.len() > 0 ==> rest[0] == '.',
    ensures
        point_at(whole + rest) == whole.len(),
    decreases whole.len(),
{
    let s = whole + rest;
    if whole.len() == 0 {
        assert(s =~= rest);
    } else {
        assert(is_digit(whole[0]));
        assert(s[0] == whole[0]);
        assert(s.skip(1) =~= whole.skip(1) + rest);
        lemma_point_at(whole.skip(1), rest);
    }
}

/// Digits are a numeral, and so are digits with a point before, among or after
/// them; what stands before the point is whole, and what stands after it is the
/// fraction.
pub proof fn lemma_numeral(whole: Seq<char>, frac: Seq<char>)
    requires
        digits_only(whole),
        digits_only(frac),
    ensures
        whole_part(whole) == whole,
        fraction_part(whole) == Seq::<char>::empty(),
        whole_part(whole + seq!['.'] + frac) == whole,
        fraction_part(whole + seq!['.'] + frac) == frac,
        whole.len() > 0 ==> is_numeral(whole),
        whole.len() + frac.len() > 0 ==> is_numeral(whole + seq!['.'] + frac),
        !is_numeral(Seq::<char>::empty()),
        !is_numeral(seq!['.']),
{
    let none = Seq::<char>::empty();
    let s = whole + seq!['.'] + frac;
    lemma_point_at(whole, none);
    assert(whole + none =~= whole);
    lemma_point_at(whole, seq!['.'] + frac);
    assert(whole + (seq!['.'] + frac) =~= s);
    assert(whole_part(whole) =~= whole);
    assert(whole_part(s) =~= whole);
    assert(fraction_part(s) =~= frac);
    assert(whole_part(none) =~= none);
    let dot = seq!['.'];
    assert(point_at(dot) == 0);
    assert(whole_part(dot) =~= none);
    assert(fraction_part(dot) =~= none);
}

/// The decimals of a number are digits, and their value is the number.
pub proof fn lemma_decimal_value(n: nat)
    ensures
        digits_only(text::decimal(n)),
        text::decimal(n).len() > 0,
        decimal::digits_value(digit_values(text::decimal(n))) == n,
    decreases n,
{
    let s = text::decimal(n);
    let d = digit_values(s);
    if n >= 10 {
        lemma_decimal_value(n / 10);
        let front = text::decimal(n / 10);
        assert(s.drop_last() =~= front);
        assert(d.drop_last() =~= digit_values(front));
        assert(digits_only(s)) by {
            assert forall|i: int| 0 <= i < s.len() implies is_digit(#[trigger] s[i]) by {
                if i < front.len() {
                    assert(s[i] == front[i]);
                }
            }
        }
        assert(d.last() == n % 10);
    } else {
        assert(d.drop_last() =~= Seq::<u8>::empty());
        assert(decimal::digits_value(Seq::<u8>::empty()) == 0);
        assert(d.last() == n);
    }
}

/// What has anything but digits before its first point, or behind it, is no
/// numeral; a second point is no digit.
pub proof fn lemma_no_numeral(whole: Seq<char>, frac: Seq<char>)
    requires
        forall|i: int| 0 <= i < whole.len() ==> #[trigger] whole[i] != '.',
        !digits_only(whole) || !digits_only(frac),
    ensures
        !is_numeral(whole + seq!['.'] + frac),
        !digits_only(whole) ==> !is_numeral(whole),
{
    let s = whole + seq!['.'] + frac;
    let none = Seq::<char>::empty();
    lemma_point_before(whole, none);
    assert(whole + none =~= whole);
    lemma_point_before(whole, seq!['.'] + frac);
    assert(whole + (seq!['.'] + frac) =~= s);
    assert(whole_part(whole) =~= whole);
    assert(whole_part(s) =~= whole);
    assert(fraction_part(s) =~= frac);
}

proof fn lemma_point_before(whole: Seq<char>, rest: Seq<char>)
    requires
        forall|i: int| 0 <= i < whole.len() ==> #[trigger] whole[i] != '.',
        rest.len() > 0 ==> rest[0] == '.',
    ensures
        point_at(whole + rest) == whole.len(),
    decreases whole.len(),
{
    let s = whole + rest;
    if whole.len() == 0 {
        assert(s =~= rest);
    } else {
        assert(s[0] == whole[0]);
        assert(s.skip(1) =~= whole.skip(1) + rest);
        assert forall|i: int| 0 <= i < whole.skip(1).len() implies #[trigger] whole.skip(1)[i]
            != '.' by {
            assert(whole.skip(1)[i] == whole[i + 1]);
        }
        lemma_point_before(whole.skip(1), rest);
    }
}

} // verus!
