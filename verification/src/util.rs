//! Sizes and durations as text.

use crate::accuracy;
use crate::binary64;
use crate::binary64::Binary64;
use crate::decimal;
use crate::decimal::{round_decimal, times};
use crate::numeral;
use crate::numeral::{numeral_end, read_numeral};
use crate::text;
use crate::text::{chars_of, push_decimal, push_two_digits, same_text, text_between, to_upper, trim};
use vstd::arithmetic::power2::pow2;
use vstd::prelude::*;
use vstd::string::*;

verus! {

/// The double-precision number nearest to an integer.
pub open spec fn whole_number(n: nat) -> binary64::Float {
    binary64::nearest(n, 1)
}

/// A size divided by one thousand until it is less than one thousand or the
/// units are exhausted; with it goes the number of divisions.
pub open spec fn scaled(v: binary64::Float, unit: nat) -> (binary64::Float, nat)
    decreases 4 - unit,
{
    if unit < 4 && binary64::float_ge(v, whole_number(1000)) {
        scaled(binary64::float_div(v, whole_number(1000)), unit + 1)
    } else {
        (v, unit)
    }
}

/// The name of a decimal unit of size.
pub open spec fn unit_name(unit: nat) -> Seq<char> {
    if unit == 0 {
        "B"@
    } else if unit == 1 {
        "KB"@
    } else if unit == 2 {
        "MB"@
    } else if unit == 3 {
        "GB"@
    } else {
        "TB"@
    }
}

/// A byte count as text: whole bytes below one thousand, otherwise two
/// decimals in the largest decimal unit that leaves at least one.
pub open spec fn human_bytes_text(bytes: u64) -> Seq<char> {
    let (v, unit) = scaled(whole_number(bytes as nat), 0);
    if unit == 0 {
        text::decimal(bytes as nat) + " B"@
    } else {
        binary64::fixed_text(v, 2) + " "@ + unit_name(unit)
    }
}

/// Format a byte count as a human-readable string (decimal units).
pub fn human_bytes(bytes: u64) -> (out: String)
    ensures
        out@ == human_bytes_text(bytes),
{
    let thousand = Binary64::from_u64(1000);
    let mut value = Binary64::from_u64(bytes);
    let mut unit: u32 = 0;
    while unit < 4 && value.at_least(thousand)
        invariant
            thousand@ == whole_number(1000),
            thousand.moderate(),
            thousand.mant > 0,
            -52 <= thousand.exp <= 12,
            0 <= unit <= 4,
            value@.normal(),
            -1000 + 200 * (4 - unit) <= value.exp <= 12,
            scaled(whole_number(bytes as nat), 0) == scaled(value@, unit as nat),
        decreases 4 - unit,
    {
        proof {
            assert(thousand.exp >= -43) by {
                vstd::arithmetic::power2::lemma2_to64();
                binary64::lemma_nearest_range(1000, 1, 9, 10);
            }
        }
        value = value.div(thousand);
        unit = unit + 1;
    }
    assert(scaled(value@, unit as nat) == (value@, unit as nat));
    let mut out = String::new();
    if unit == 0 {
        push_decimal(&mut out, bytes as u128);
        out.append(" B");
        assert(out@ =~= human_bytes_text(bytes));
        out
    } else {
        out.append(value.fixed(2).as_str());
        out.append(" ");
        if unit == 1 {
            out.append("KB");
        } else if unit == 2 {
            out.append("MB");
        } else if unit == 3 {
            out.append("GB");
        } else {
            out.append("TB");
        }
        assert(out@ =~= human_bytes_text(bytes));
        out
    }
}

/// A duration as text: hours without leading zeros, if there are any, then
/// minutes and seconds.
pub open spec fn duration_text(ms: nat) -> Seq<char> {
    let total = ms / 1000;
    let secs = total % 60;
    let mins = (total / 60) % 60;
    let hours = total / 3600;
    if hours > 0 {
        text::decimal(hours) + ":"@ + text::two_digits(mins) + ":"@ + text::two_digits(secs)
    } else {
        text::decimal(mins) + ":"@ + text::two_digits(secs)
    }
}

/// Format milliseconds as `H:MM:SS` (or `M:SS` when under an hour).
pub fn format_duration_ms(ms: u64) -> (out: String)
    ensures
        out@ == duration_text(ms as nat),
{
    let total_secs: u64 = ms / 1000;
    let secs: u64 = total_secs % 60;
    let mins: u64 = (total_secs / 60) % 60;
    let hours: u64 = total_secs / 3600;
    let mut out = String::new();
    if hours > 0 {
        push_decimal(&mut out, hours as u128);
        out.append(":");
        push_two_digits(&mut out, mins);
        out.append(":");
        push_two_digits(&mut out, secs);
    } else {
        push_decimal(&mut out, mins as u128);
        out.append(":");
        push_two_digits(&mut out, secs);
    }
    assert(out@ =~= duration_text(ms as nat));
    out
}

/// What a text in which colons separate fields counts, sixty of each field
/// being one of the field before: what the fields up to the last colon count,
/// and the number behind it.
pub open spec fn clock(t: Seq<char>) -> (nat, nat)
    decreases t.len(),
{
    if t.len() == 0 {
        (0, 0)
    } else {
        let (whole, part) = clock(t.drop_last());
        if t.last() == ':' {
            ((whole + part) * 60, 0)
        } else {
            (whole, (part * 10 + (t.last() as int - 48)) as nat)
        }
    }
}

/// The seconds that a text of hours, minutes and seconds counts.
pub open spec fn clock_seconds(t: Seq<char>) -> nat {
    clock(t).0 + clock(t).1
}

proof fn lemma_clock_digit(t: Seq<char>, d: int)
    requires
        0 <= d < 10,
    ensures
        clock(t.push(text::digit_char(d))) == (clock(t).0, (clock(t).1 * 10 + d) as nat),
{
    assert(t.push(text::digit_char(d)).drop_last() =~= t);
    assert(text::digit_char(d) as int == 48 + d);
}

proof fn lemma_clock_number(t: Seq<char>, n: nat)
    requires
        clock(t).1 == 0,
    ensures
        clock(t + text::decimal(n)) == (clock(t).0, n),
    decreases n,
{
    if n < 10 {
        assert(t + text::decimal(n) =~= t.push(text::digit_char(n as int)));
        lemma_clock_digit(t, n as int);
    } else {
        let d = (n % 10) as int;
        lemma_clock_number(t, n / 10);
        assert(t + text::decimal(n) =~= (t + text::decimal(n / 10)).push(text::digit_char(d)));
        lemma_clock_digit(t + text::decimal(n / 10), d);
    }
}

proof fn lemma_clock_two_digits(t: Seq<char>, n: nat)
    requires
        clock(t).1 == 0,
    ensures
        clock(t + text::two_digits(n)) == (clock(t).0, n),
{
    if n < 10 {
        let zero = t.push('0');
        assert(text::digit_char(0) == '0');
        lemma_clock_digit(t, 0);
        lemma_clock_number(zero, n);
        assert(t + text::two_digits(n) =~= zero + text::decimal(n));
    } else {
        lemma_clock_number(t, n);
    }
}

proof fn lemma_clock_colon(t: Seq<char>)
    ensures
        clock(t + ":"@) == ((clock(t).0 + clock(t).1) * 60, 0nat),
{
    reveal_strlit(":");
    assert(t + ":"@ =~= t.push(':'));
    assert(t.push(':').drop_last() =~= t);
}

/// Read back, the fields of a duration's text count its whole seconds. Minutes
/// and seconds have two digits and are below sixty; the first field is not
/// padded, and there are hours only from an hour on.
pub proof fn lemma_duration_reads_back(ms: nat)
    ensures
        clock_seconds(duration_text(ms)) == ms / 1000,
        ({
            let mins = (ms / 1000 / 60) % 60;
            let secs = ms / 1000 % 60;
            &&& mins < 60 && text::two_digits(mins).len() == 2
            &&& secs < 60 && text::two_digits(secs).len() == 2
            &&& duration_text(ms) == if ms < 3_600_000 {
                text::decimal(mins) + ":"@ + text::two_digits(secs)
            } else {
                text::decimal(ms / 3_600_000) + ":"@ + text::two_digits(mins) + ":"@
                    + text::two_digits(secs)
            }
        }),
{
    let total = ms / 1000;
    let secs = total % 60;
    let mins = (total / 60) % 60;
    let hours = total / 3600;
    let none = Seq::<char>::empty();
    reveal_with_fuel(text::decimal, 3);
    assert(hours > 0 <==> ms >= 3_600_000);
    assert(hours == ms / 3_600_000);
    let first = if hours > 0 {
        hours
    } else {
        mins
    };
    let a = text::decimal(first);
    lemma_clock_number(none, first);
    assert(none + a =~= a);
    lemma_clock_colon(a);
    if hours > 0 {
        let b = a + ":"@ + text::two_digits(mins);
        lemma_clock_two_digits(a + ":"@, mins);
        lemma_clock_colon(b);
        lemma_clock_two_digits(b + ":"@, secs);
        assert(total == hours * 3600 + mins * 60 + secs);
    } else {
        lemma_clock_two_digits(a + ":"@, secs);
        assert(total == mins * 60 + secs);
    }
}

/// Durations have the same text exactly when they have the same whole seconds.
pub proof fn lemma_duration_text(a: nat, b: nat)
    ensures
        (duration_text(a) == duration_text(b)) == (a / 1000 == b / 1000),
{
    lemma_duration_reads_back(a);
    lemma_duration_reads_back(b);
}

/// Why a size could not be read.
#[derive(Debug)]
pub enum SizeError {
    /// The text holds nothing but white space.
    Empty,
    /// The text does not begin with a number.
    Invalid,
    /// The number is followed by this suffix, which names no unit.
    UnknownSuffix(String),
    /// The size does not fit in 64 bits.
    OutOfRange,
}

/// What a size is read as.
pub enum SizeView {
    Bytes(u64),
    Empty,
    Invalid,
    UnknownSuffix(Seq<char>),
    OutOfRange,
}

/// How many bytes a unit has. Suffixes with a `B` alone are decimal, the
/// others binary.
pub open spec fn unit_factor(suffix: Seq<char>) -> Option<nat> {
    if suffix == ""@ || suffix == "B"@ {
        Some(1)
    } else if suffix == "KB"@ {
        Some(1_000)
    } else if suffix == "MB"@ {
        Some(1_000_000)
    } else if suffix == "GB"@ {
        Some(1_000_000_000)
    } else if suffix == "TB"@ {
        Some(1_000_000_000_000)
    } else if suffix == "K"@ || suffix == "KIB"@ || suffix == "KI"@ {
        Some(1_024)
    } else if suffix == "M"@ || suffix == "MIB"@ || suffix == "MI"@ {
        Some(1_048_576)
    } else if suffix == "G"@ || suffix == "GIB"@ || suffix == "GI"@ {
        Some(1_073_741_824)
    } else if suffix == "T"@ || suffix == "TIB"@ || suffix == "TI"@ {
        Some(1_099_511_627_776)
    } else {
        None
    }
}

/// The number of bytes that a numeral stands for in a unit, in double
/// precision.
pub open spec fn size_in_unit(num: Seq<char>, factor: nat) -> nat {
    decimal::product(
        decimal::digits_value(numeral::digit_values(numeral::whole_part(num)) + numeral::digit_values(numeral::fraction_part(num))),
        decimal::ten(numeral::fraction_part(num).len()),
        factor,
    )
}

/// What a text says as a size.
pub open spec fn size_of_text(raw: Seq<char>) -> SizeView {
    let s = text::trimmed(raw);
    let num = s.take(numeral::numeral_len(s) as int);
    let suffix = text::upper(text::trimmed(s.skip(numeral::numeral_len(s) as int)));
    if s.len() == 0 {
        SizeView::Empty
    } else if !numeral::is_numeral(num) {
        SizeView::Invalid
    } else {
        match unit_factor(suffix) {
            None => SizeView::UnknownSuffix(suffix),
            Some(factor) => if size_in_unit(num, factor) > 0x1_0000_0000_0000_0000 {
                SizeView::OutOfRange
            } else {
                SizeView::Bytes(binary64::clamp64(size_in_unit(num, factor)))
            },
        }
    }
}

fn factor_of(suffix: &str) -> (r: Option<u64>)
    ensures
        match r {
            Some(f) => unit_factor(suffix@) == Some(f as nat) && 1 <= f < 0x1_0000_0000_0000,
            None => unit_factor(suffix@) is None,
        },
{
    if same_text(suffix, "") || same_text(suffix, "B") {
        Some(1)
    } else if same_text(suffix, "KB") {
        Some(1_000)
    } else if same_text(suffix, "MB") {
        Some(1_000_000)
    } else if same_text(suffix, "GB") {
        Some(1_000_000_000)
    } else if same_text(suffix, "TB") {
        Some(1_000_000_000_000)
    } else if same_text(suffix, "K") || same_text(suffix, "KIB") || same_text(suffix, "KI") {
        Some(1_024)
    } else if same_text(suffix, "M") || same_text(suffix, "MIB") || same_text(suffix, "MI") {
        Some(1_048_576)
    } else if same_text(suffix, "G") || same_text(suffix, "GIB") || same_text(suffix, "GI") {
        Some(1_073_741_824)
    } else if same_text(suffix, "T") || same_text(suffix, "TIB") || same_text(suffix, "TI") {
        Some(1_099_511_627_776)
    } else {
        None
    }
}

/// What the result of reading a size says.
pub open spec fn size_view(r: Result<u64, SizeError>) -> SizeView {
    match r {
        Ok(bytes) => SizeView::Bytes(bytes),
        Err(SizeError::Empty) => SizeView::Empty,
        Err(SizeError::Invalid) => SizeView::Invalid,
        Err(SizeError::UnknownSuffix(s)) => SizeView::UnknownSuffix(s@),
        Err(SizeError::OutOfRange) => SizeView::OutOfRange,
    }
}

/// Parse a human size string like `512`, `1.5KB`, `2 MB`, `3GiB`, `4G`.
/// Decimal suffixes (KB, MB, ...) multiply by powers of 1000;
/// binary suffixes (KiB, MiB, ...) and bare letters (K, M, ...) by powers of 1024.
pub fn parse_size(raw: &str) -> (r: Result<u64, SizeError>)
    ensures
        size_view(r) == size_of_text(raw@),
{
    let s = trim(raw);
    let chars = chars_of(s.as_str());
    let n = chars.len();
    if n == 0 {
        return Err(SizeError::Empty);
    }
    assert(chars@.skip(0) =~= chars@);
    let split = numeral_end(&chars, 0);
    assert(chars@.subrange(0, split as int) =~= chars@.take(split as int));
    let (whole, frac) = match read_numeral(&chars, 0, split) {
        Some(parts) => parts,
        None => {
            return Err(SizeError::Invalid);
        },
    };
    let rest = text_between(&chars, split, n);
    assert(rest@ =~= chars@.skip(split as int));
    let suffix = to_upper(trim(rest.as_str()).as_str());
    let factor = match factor_of(suffix.as_str()) {
        Some(f) => f,
        None => {
            return Err(SizeError::UnknownSuffix(suffix));
        },
    };
    let rounded = round_decimal(&whole, &frac);
    proof {
        vstd::arithmetic::power::lemma_pow_positive(10, frac@.len());
        assert(decimal::rounds_to(
            rounded,
            decimal::digits_value(whole@ + frac@),
            decimal::ten(frac@.len()),
        ));
    }
    match times(&rounded, factor) {
        Some(bytes) => Ok(bytes),
        None => Err(SizeError::OutOfRange),
    }
}

impl SizeError {
    /// The message for a size that was given as `raw`.
    pub fn message(&self, raw: &str) -> (out: String)
        ensures
            out@ == match *self {
                SizeError::Empty => "empty size"@,
                SizeError::Invalid => "invalid size: '"@ + raw@ + "'"@,
                SizeError::UnknownSuffix(s) => "unknown size suffix '"@ + s@ + "' in '"@ + raw@
                    + "'"@,
                SizeError::OutOfRange => "size out of range: '"@ + raw@ + "'"@,
            },
    {
        let mut out = String::new();
        match self {
            SizeError::Empty => {
                out.append("empty size");
                assert(out@ =~= "empty size"@);
            },
            SizeError::Invalid => {
                out.append("invalid size: '");
                out.append(raw);
                out.append("'");
                assert(out@ =~= "invalid size: '"@ + raw@ + "'"@);
            },
            SizeError::UnknownSuffix(s) => {
                out.append("unknown size suffix '");
                out.append(s.as_str());
                out.append("' in '");
                out.append(raw);
                out.append("'");
                assert(out@ =~= "unknown size suffix '"@ + s@ + "' in '"@ + raw@ + "'"@);
            },
            SizeError::OutOfRange => {
                out.append("size out of range: '");
                out.append(raw);
                out.append("'");
                assert(out@ =~= "size out of range: '"@ + raw@ + "'"@);
            },
        }
        out
    }
}

/// How a size is read: white space around it and between number and unit does
/// not count, nor does the case of the unit's letters.
proof fn lemma_size_split(
    a: Seq<char>,
    num: Seq<char>,
    gap: Seq<char>,
    unit: Seq<char>,
    b: Seq<char>,
)
    requires
        num.len() > 0,
        forall|i: int|
            0 <= i < num.len() ==> numeral::is_digit(#[trigger] num[i]) || num[i] == '.',
        forall|i: int| 0 <= i < a.len() ==> text::is_space(#[trigger] a[i]),
        forall|i: int| 0 <= i < gap.len() ==> text::is_space(#[trigger] gap[i]),
        forall|i: int| 0 <= i < b.len() ==> text::is_space(#[trigger] b[i]),
        forall|i: int| 0 <= i < unit.len() ==> 'A' <= #[trigger] text::upper(unit)[i] <= 'Z',
        unit.len() > 0 || gap.len() == 0,
    ensures
        ({
            let s = num + (gap + unit);
            &&& text::trimmed(a + s + b) == s
            &&& s.len() > 0
            &&& s.take(numeral::numeral_len(s) as int) == num
            &&& text::trimmed(s.skip(numeral::numeral_len(s) as int)) == unit
        }),
{
    let rest = gap + unit;
    let s = num + rest;
    assert forall|i: int| 0 <= i < unit.len() implies !text::is_space(#[trigger] unit[i])
        && !numeral::is_digit(unit[i]) && unit[i] != '.' by {
        assert('A' <= text::upper(unit)[i] <= 'Z');
    }
    assert(numeral::is_digit(num[0]) || num[0] == '.');
    assert(s[0] == num[0]);
    assert(!text::is_space(s[0]));
    if unit.len() > 0 {
        assert(s.last() == unit[unit.len() - 1]);
    } else {
        assert(rest.len() == 0);
        assert(s.last() == num[num.len() - 1]);
    }
    text::lemma_trimmed(a, s, b);
    if rest.len() > 0 {
        if gap.len() > 0 {
            assert(rest[0] == gap[0]);
        } else {
            assert(rest[0] == unit[0]);
        }
    }
    numeral::lemma_numeral_len(num, rest);
    let none = Seq::<char>::empty();
    if unit.len() > 0 {
        assert(!text::is_space(unit[0]) && !text::is_space(unit[unit.len() - 1]));
    }
    text::lemma_trimmed(gap, unit, none);
    assert(gap + unit + none =~= rest);
}

/// The names of units are letters.
proof fn lemma_unit_letters(unit: Seq<char>)
    requires
        unit_factor(text::upper(unit)) is Some,
    ensures
        forall|i: int| 0 <= i < unit.len() ==> 'A' <= #[trigger] text::upper(unit)[i] <= 'Z',
{
    reveal_strlit("");
    reveal_strlit("B");
    reveal_strlit("KB");
    reveal_strlit("MB");
    reveal_strlit("GB");
    reveal_strlit("TB");
    reveal_strlit("K");
    reveal_strlit("KIB");
    reveal_strlit("KI");
    reveal_strlit("M");
    reveal_strlit("MIB");
    reveal_strlit("MI");
    reveal_strlit("G");
    reveal_strlit("GIB");
    reveal_strlit("GI");
    reveal_strlit("T");
    reveal_strlit("TIB");
    reveal_strlit("TI");
    let u = text::upper(unit);
    assert(u.len() == unit.len());
}

/// The size that some digits and a unit stand for.
proof fn lemma_size_of_unit(
    a: Seq<char>,
    num: Seq<char>,
    gap: Seq<char>,
    unit: Seq<char>,
    b: Seq<char>,
)
    requires
        num.len() > 0,
        forall|i: int|
            0 <= i < num.len() ==> numeral::is_digit(#[trigger] num[i]) || num[i] == '.',
        numeral::is_numeral(num),
        forall|i: int| 0 <= i < a.len() ==> text::is_space(#[trigger] a[i]),
        forall|i: int| 0 <= i < gap.len() ==> text::is_space(#[trigger] gap[i]),
        forall|i: int| 0 <= i < b.len() ==> text::is_space(#[trigger] b[i]),
        unit.len() > 0 || gap.len() == 0,
        unit_factor(text::upper(unit)) is Some,
    ensures
        ({
            let size = size_in_unit(num, unit_factor(text::upper(unit))->0);
            size_of_text(a + (num + (gap + unit)) + b) == if size > 0x1_0000_0000_0000_0000 {
                SizeView::OutOfRange
            } else {
                SizeView::Bytes(binary64::clamp64(size))
            }
        }),
{
    lemma_unit_letters(unit);
    lemma_size_split(a, num, gap, unit, b);
}

/// A whole number of a unit, as a size.
proof fn lemma_size_whole(
    a: Seq<char>,
    n: nat,
    gap: Seq<char>,
    unit: Seq<char>,
    b: Seq<char>,
)
    requires
        forall|i: int| 0 <= i < a.len() ==> text::is_space(#[trigger] a[i]),
        forall|i: int| 0 <= i < gap.len() ==> text::is_space(#[trigger] gap[i]),
        forall|i: int| 0 <= i < b.len() ==> text::is_space(#[trigger] b[i]),
        unit.len() > 0 || gap.len() == 0,
        unit_factor(text::upper(unit)) is Some,
        unit_factor(text::upper(unit))->0 > 0,
        n * unit_factor(text::upper(unit))->0 < 0x20_0000_0000_0000,
    ensures
        size_of_text(a + (text::decimal(n) + (gap + unit)) + b) == SizeView::Bytes(
            (n * unit_factor(text::upper(unit))->0) as u64,
        ),
{
    let num = text::decimal(n);
    let factor = unit_factor(text::upper(unit))->0;
    let none = Seq::<char>::empty();
    numeral::lemma_decimal_value(n);
    numeral::lemma_numeral(num, none);
    lemma_size_of_unit(a, num, gap, unit, b);
    let digits = numeral::digit_values(num);
    assert(digits + numeral::digit_values(none) =~= digits);
    vstd::arithmetic::power::lemma_pow0(10);
    decimal::lemma_product_whole(n, factor);
    assert(n * factor >= 0) by (nonlinear_arith);
}

/// A whole number is read as so many bytes where no unit follows or the unit is
/// a byte. The decimal units stand a thousand apart, each from the one before,
/// and the binary ones a thousand and twenty-four. Units are told by their
/// letters in any case, and white space before, after and between does not
/// count.
pub proof fn lemma_units(
    a: Seq<char>,
    n: nat,
    gap: Seq<char>,
    unit: Seq<char>,
    b: Seq<char>,
    bytes: nat,
)
    requires
        forall|i: int| 0 <= i < a.len() ==> text::is_space(#[trigger] a[i]),
        forall|i: int| 0 <= i < gap.len() ==> text::is_space(#[trigger] gap[i]),
        forall|i: int| 0 <= i < b.len() ==> text::is_space(#[trigger] b[i]),
        unit.len() > 0 || gap.len() == 0,
        bytes < 0x20_0000_0000_0000,
        ({
            let u = text::upper(unit);
            ||| (u == ""@ || u == "B"@) && bytes == n
            ||| u == "KB"@ && bytes == n * 1000
            ||| u == "MB"@ && bytes == n * 1000 * 1000
            ||| u == "GB"@ && bytes == n * 1000 * 1000 * 1000
            ||| u == "TB"@ && bytes == n * 1000 * 1000 * 1000 * 1000
            ||| (u == "K"@ || u == "KI"@ || u == "KIB"@) && bytes == n * 1024
            ||| (u == "M"@ || u == "MI"@ || u == "MIB"@) && bytes == n * 1024 * 1024
            ||| (u == "G"@ || u == "GI"@ || u == "GIB"@) && bytes == n * 1024 * 1024 * 1024
            ||| (u == "T"@ || u == "TI"@ || u == "TIB"@) && bytes == n * 1024 * 1024 * 1024 * 1024
        }),
    ensures
        size_of_text(a + (text::decimal(n) + (gap + unit)) + b) == SizeView::Bytes(bytes as u64),
{
    let u = text::upper(unit);
    lemma_unit_factors(u);
    let f = unit_factor(u)->0;
    assert(n * f == bytes) by (nonlinear_arith)
        requires
            (f == 1 && bytes == n) || (f == 1000 && bytes == n * 1000) || (f == 1000 * 1000 && bytes
                == n * 1000 * 1000) || (f == 1000 * 1000 * 1000 && bytes == n * 1000 * 1000 * 1000)
                || (f == 1000int * 1000 * 1000 * 1000 && bytes == n * 1000 * 1000 * 1000 * 1000)
                || (f == 1024 && bytes == n * 1024) || (f == 1024 * 1024 && bytes == n * 1024
                * 1024) || (f == 1024 * 1024 * 1024 && bytes == n * 1024 * 1024 * 1024) || (f
                == 1024int * 1024 * 1024 * 1024 && bytes == n * 1024 * 1024 * 1024 * 1024),
    ;
    lemma_size_whole(a, n, gap, unit, b);
}

/// What the units are.
proof fn lemma_unit_factors(u: Seq<char>)
    ensures
        u == ""@ || u == "B"@ ==> unit_factor(u) == Some(1nat),
        u == "KB"@ ==> unit_factor(u) == Some(1000nat),
        u == "MB"@ ==> unit_factor(u) == Some((1000 * 1000) as nat),
        u == "GB"@ ==> unit_factor(u) == Some((1000 * 1000 * 1000) as nat),
        u == "TB"@ ==> unit_factor(u) == Some((1000int * 1000 * 1000 * 1000) as nat),
        u == "K"@ || u == "KI"@ || u == "KIB"@ ==> unit_factor(u) == Some(1024nat),
        u == "M"@ || u == "MI"@ || u == "MIB"@ ==> unit_factor(u) == Some((1024 * 1024) as nat),
        u == "G"@ || u == "GI"@ || u == "GIB"@ ==> unit_factor(u) == Some(
            (1024 * 1024 * 1024) as nat,
        ),
        u == "T"@ || u == "TI"@ || u == "TIB"@ ==> unit_factor(u) == Some(
            (1024int * 1024 * 1024 * 1024) as nat,
        ),
{
    reveal_strlit("");
    reveal_strlit("B");
    reveal_strlit("KB");
    reveal_strlit("MB");
    reveal_strlit("GB");
    reveal_strlit("TB");
    reveal_strlit("K");
    reveal_strlit("KIB");
    reveal_strlit("KI");
    reveal_strlit("M");
    reveal_strlit("MIB");
    reveal_strlit("MI");
    reveal_strlit("G");
    reveal_strlit("GIB");
    reveal_strlit("GI");
    reveal_strlit("T");
    reveal_strlit("TIB");
    reveal_strlit("TI");
    assert(""@ =~= Seq::<char>::empty());
    assert("B"@ =~= seq!['B']);
    assert("KB"@ =~= seq!['K', 'B']);
    assert("MB"@ =~= seq!['M', 'B']);
    assert("GB"@ =~= seq!['G', 'B']);
    assert("TB"@ =~= seq!['T', 'B']);
    assert("K"@ =~= seq!['K']);
    assert("KIB"@ =~= seq!['K', 'I', 'B']);
    assert("KI"@ =~= seq!['K', 'I']);
    assert("M"@ =~= seq!['M']);
    assert("MIB"@ =~= seq!['M', 'I', 'B']);
    assert("MI"@ =~= seq!['M', 'I']);
    assert("G"@ =~= seq!['G']);
    assert("GIB"@ =~= seq!['G', 'I', 'B']);
    assert("GI"@ =~= seq!['G', 'I']);
    assert("T"@ =~= seq!['T']);
    assert("TIB"@ =~= seq!['T', 'I', 'B']);
    assert("TI"@ =~= seq!['T', 'I']);
    if u.len() > 0 {
        let c = u[0];
        assert(c == u[0]);
    }
}

/// A thousand to a power.
pub open spec fn thousands(k: nat) -> nat
    decreases k,
{
    if k == 0 {
        1
    } else {
        1000 * thousands((k - 1) as nat)
    }
}

/// A byte count divided by a thousand so many times.
spec fn divided(bytes: u64, k: nat) -> binary64::Float
    decreases k,
{
    if k == 0 {
        whole_number(bytes as nat)
    } else {
        binary64::float_div(divided(bytes, (k - 1) as nat), whole_number(1000))
    }
}

/// Dividing by a thousand several times comes close to dividing once.
proof fn lemma_divided(bytes: u64, k: nat)
    requires
        bytes > 0,
        k <= 4,
    ensures
        binary64::MANT_LOW <= divided(bytes, k).mant < binary64::MANT_HIGH,
        -52 - 53 * k <= divided(bytes, k).exp <= 12 + k,
        accuracy::within(
            thousands(k) * accuracy::units(divided(bytes, k), 400),
            bytes as nat * pow2(400),
            k + 1,
        ),
    decreases k,
{
    vstd::arithmetic::power2::lemma2_to64();
    vstd::arithmetic::power2::lemma2_to64_rest();
    let n = bytes as nat;
    let b = n * pow2(400);
    if k == 0 {
        binary64::lemma_nearest_range(n, 1, 0, 64);
        accuracy::lemma_nearest(n, 1, 400);
        let u = accuracy::units(divided(bytes, 0), 400);
        assert(u * 1 == u && 1 * u == u);
        assert(accuracy::within(u, b, 1)) by {
            assert(1 * b == b);
        }
    } else {
        let j = (k - 1) as nat;
        lemma_divided(bytes, j);
        let x = divided(bytes, j);
        let y = whole_number(1000);
        let q = divided(bytes, k);
        accuracy::lemma_small(1000, 52);
        accuracy::lemma_div(x, y, 400, 52);
        binary64::lemma_nearest_range(1000, 1, 9, 10);
        accuracy::lemma_units_scale(x, 400, 52);
        let u = accuracy::units(q, 400);
        let v = accuracy::units(x, 400);
        let c = pow2(52);
        assert(u * (1000 * c) == (1000 * u) * c) by (nonlinear_arith);
        accuracy::lemma_near_divide(1000 * u, v, c);
        let t = thousands(j);
        accuracy::lemma_near_times(1000 * u, v, t);
        assert(t * (1000 * u) == (1000 * t) * u) by (nonlinear_arith);
        accuracy::lemma_within_near(thousands(k) * u, t * v, b, k);
    }
}

/// What thousands are.
proof fn lemma_thousands()
    ensures
        thousands(0) == 1,
        thousands(1) == 1000,
        thousands(2) == 1000 * 1000,
        thousands(3) == 1000 * 1000 * 1000,
        thousands(4) == 1000int * 1000 * 1000 * 1000,
{
    assert(thousands(1) == 1000 * thousands(0));
    assert(thousands(2) == 1000 * thousands(1));
    assert(thousands(3) == 1000 * thousands(2));
    assert(thousands(4) == 1000 * thousands(3));
}

proof fn lemma_thousands_bound(m: nat)
    requires
        m <= 4,
    ensures
        0 < thousands(m) <= 1000int * 1000 * 1000 * 1000,
{
    lemma_thousands();
    if m == 0 {
    } else if m == 1 {
    } else if m == 2 {
    } else if m == 3 {
    } else {
        assert(m == 4);
    }
}

/// A count of at least a power of a thousand stays at least what is left of the
/// power.
proof fn lemma_divided_reaches(bytes: u64, k: nat, m: nat)
    requires
        k <= m <= 4,
        bytes >= thousands(m),
    ensures
        binary64::float_ge(divided(bytes, k), whole_number(thousands((m - k) as nat))),
    decreases k,
{
    lemma_thousands_bound(m);
    if k == 0 {
        binary64::lemma_nearest_grows(thousands(m), bytes as nat, 1);
    } else {
        let j = (k - 1) as nat;
        lemma_divided_reaches(bytes, j, m);
        lemma_divided(bytes, j);
        let more = thousands((m - j) as nat);
        let less = thousands((m - k) as nat);
        lemma_thousands_bound((m - j) as nat);
        lemma_thousands_bound((m - k) as nat);
        let x = divided(bytes, j);
        let z = whole_number(more);
        let y = whole_number(1000);
        let q = whole_number(less);
        accuracy::lemma_small(more, 104);
        accuracy::lemma_small(less, 52);
        accuracy::lemma_small(1000, 52);
        vstd::arithmetic::power2::lemma_pow2_adds(52, 52);
        let c = pow2(52);
        assert((less * c) * (1000 * c) == (1000 * less) * (c * c)) by (nonlinear_arith);
        accuracy::lemma_div_exact(z, y, q, 52, 52);
        binary64::lemma_div_grows(z, x, y);
    }
}

/// A count below a power of a thousand falls below a thousand in time.
proof fn lemma_divided_falls(bytes: u64, k: nat)
    requires
        bytes > 0,
        k < 4,
        bytes < thousands(k + 1),
    ensures
        !binary64::float_ge(divided(bytes, k), whole_number(1000)),
{
    lemma_divided(bytes, k);
    lemma_thousands_bound(k + 1);
    lemma_thousands_bound(k);
    accuracy::lemma_small(1000, 400);
    accuracy::lemma_ge(divided(bytes, k), whole_number(1000), 400);
    let t = thousands(k);
    let u = accuracy::units(divided(bytes, k), 400);
    let p = pow2(400);
    let n = bytes as nat;
    let b = n * p;
    vstd::arithmetic::power2::lemma_pow2_pos(400);
    let m = k + 1;
    let low = binary64::MANT_LOW as int;
    let tu = t * u;
    if u >= 1000 * p {
        assert(tu >= (1000 * t) * p) by (nonlinear_arith)
            requires
                tu == t * u,
                u >= 1000 * p,
                t > 0,
        ;
        assert((1000 * t) * p >= (n + 1) * p) by (nonlinear_arith)
            requires
                1000 * t >= n + 1,
                p > 0,
        ;
        assert((n + 1) * p == b + p) by (nonlinear_arith)
            requires
                b == n * p,
        ;
        assert(low * (tu - b) >= low * p) by (nonlinear_arith)
            requires
                tu >= b + p,
                low > 0,
        ;
        assert(m * n <= 4 * n) by (nonlinear_arith)
            requires
                m <= 4,
        ;
        let mn = m * n;
        assert(mn < low);
        assert(m * b < low * p) by (nonlinear_arith)
            requires
                b == n * p,
                mn == m * n,
                mn < low,
                p > 0,
        {
            assert(m * (n * p) == mn * p);
        }
        assert(false);
    }
}

/// How often a count is divided.
proof fn lemma_scaled(bytes: u64, k: nat, j: nat)
    requires
        j <= k <= 4,
        bytes >= thousands(k),
        bytes > 0,
        k < 4 ==> bytes < thousands(k + 1),
    ensures
        scaled(divided(bytes, j), j) == (divided(bytes, k), k),
    decreases k - j,
{
    if j == k {
        if k < 4 {
            lemma_divided_falls(bytes, k);
        }
    } else {
        lemma_thousands_grow(j + 1, k);
        lemma_divided_reaches(bytes, j, j + 1);
        lemma_thousands();
        assert((j + 1) - j == 1);
        lemma_scaled(bytes, k, j + 1);
        assert(divided(bytes, j + 1) == binary64::float_div(divided(bytes, j), whole_number(1000)));
    }
}

proof fn lemma_thousands_grow(j: nat, k: nat)
    requires
        j <= k,
    ensures
        0 < thousands(j) <= thousands(k),
    decreases k,
{
    if k == 0 {
        assert(thousands(0) == 1);
    } else if j < k {
        lemma_thousands_grow(j, (k - 1) as nat);
    } else {
        lemma_thousands_grow((k - 1) as nat, (k - 1) as nat);
    }
}

/// A count below a thousand is written as it is.
pub proof fn lemma_few_bytes(bytes: u64)
    requires
        bytes < 1000,
    ensures
        human_bytes_text(bytes) == text::decimal(bytes as nat) + seq![' ', 'B'],
{
    reveal_strlit(" B");
    assert(" B"@ =~= seq![' ', 'B']);
    lemma_thousands();
    if bytes > 0 {
        lemma_divided_falls(bytes, 0);
    } else {
        accuracy::lemma_small(1000, 52);
        binary64::lemma_one();
        let x = whole_number(0);
        assert(x == binary64::float_zero());
        accuracy::lemma_ge(x, whole_number(1000), 52);
        vstd::arithmetic::power2::lemma_pow2_pos(52);
        let c = pow2(52);
        let m = x.mant;
        let d = pow2((x.exp + 52) as nat);
        assert(m * d == 0) by (nonlinear_arith)
            requires
                m == 0,
        ;
        assert(1000 * c > 0);
    }
    assert(scaled(whole_number(bytes as nat), 0) == (whole_number(bytes as nat), 0nat));
}

/// A larger count is written in the largest unit of which it has at least one,
/// with two digits behind the point: what is written, in hundredths of that
/// unit, is off by a half, and by the hundredfold count's part in `2^48`, at
/// most. Beyond the largest unit there is none.
pub proof fn lemma_many_bytes(bytes: u64, k: nat) -> (parts: (Seq<char>, Seq<char>))
    requires
        1 <= k <= 4,
        thousands(k) <= bytes,
        k < 4 ==> bytes < thousands(k + 1),
    ensures
        human_bytes_text(bytes) == parts.0 + seq!['.'] + parts.1 + seq![' '] + (if k == 1 {
            seq!['K', 'B']
        } else if k == 2 {
            seq!['M', 'B']
        } else if k == 3 {
            seq!['G', 'B']
        } else {
            seq!['T', 'B']
        }),
        numeral::digits_only(parts.0),
        parts.0.len() > 0,
        numeral::digits_only(parts.1),
        parts.1.len() == 2,
        ({
            let v = decimal::digits_value(
                numeral::digit_values(parts.0) + numeral::digit_values(parts.1),
            );
            &&& 0x1_0000_0000_0000 * (2 * (v * thousands(k)) - 2 * (100 * bytes))
                <= 0x1_0000_0000_0000 * thousands(k) + 2 * (100 * bytes)
            &&& 0x1_0000_0000_0000 * (2 * (100 * bytes) - 2 * (v * thousands(k)))
                <= 0x1_0000_0000_0000 * thousands(k) + 2 * (100 * bytes)
        }),
{
    reveal_strlit(" ");
    reveal_strlit("KB");
    reveal_strlit("MB");
    reveal_strlit("GB");
    reveal_strlit("TB");
    assert(" "@ =~= seq![' ']);
    assert("KB"@ =~= seq!['K', 'B']);
    assert("MB"@ =~= seq!['M', 'B']);
    assert("GB"@ =~= seq!['G', 'B']);
    assert("TB"@ =~= seq!['T', 'B']);
    lemma_thousands_grow(0, k);
    lemma_scaled(bytes, k, 0);
    lemma_divided(bytes, k);
    let x = divided(bytes, k);
    let parts = accuracy::lemma_fixed_text(x, 2);
    let v = decimal::digits_value(
        numeral::digit_values(parts.0) + numeral::digit_values(parts.1),
    );
    vstd::arithmetic::power::lemma_pow1(10);
    vstd::arithmetic::power::lemma_pow_adds(10, 1, 1);
    accuracy::lemma_units_fraction(x, 400);
    lemma_hundredths(
        v,
        x.above(),
        x.below(),
        accuracy::units(x, 400),
        pow2(400),
        thousands(k),
        bytes as nat,
        k + 1,
    );
    parts
}

/// From what the digits stand for to the count.
proof fn lemma_hundredths(
    v: nat,
    above: nat,
    below: nat,
    u: nat,
    p: nat,
    t: nat,
    n: nat,
    m: nat,
)
    requires
        below > 0,
        p > 0,
        t > 0,
        m <= 5,
        u * below == above * p,
        2 * (v * below - above * 100) <= below,
        2 * (above * 100 - v * below) <= below,
        accuracy::within(t * u, n * p, m),
    ensures
        0x1_0000_0000_0000 * (2 * (v * t) - 2 * (100 * n)) <= 0x1_0000_0000_0000 * t + 2 * (100
            * n),
        0x1_0000_0000_0000 * (2 * (100 * n) - 2 * (v * t)) <= 0x1_0000_0000_0000 * t + 2 * (100
            * n),
{
    let vp = (v * p) as int;
    let u100 = (u * 100) as int;
    assert(2 * (vp - u100) <= p && 2 * (u100 - vp) <= p) by (nonlinear_arith)
        requires
            u * below == above * p,
            2 * (v * below - above * 100) <= below,
            2 * (above * 100 - v * below) <= below,
            vp == v * p,
            u100 == u * 100,
            below > 0,
            p > 0,
    {
        assert((2 * (v * below - above * 100)) * p <= below * p);
        assert((2 * (v * below - above * 100)) * p == 2 * (vp * below) - 2 * ((above * p) * 100));
        assert((above * p) * 100 == u100 * below);
        assert((2 * (vp - u100)) * below <= p * below);
        assert((2 * (above * 100 - v * below)) * p <= below * p);
        assert((2 * (u100 - vp)) * below <= p * below);
    }
    let tu = (t * u) as int;
    let np = (n * p) as int;
    let low = binary64::MANT_LOW as int;
    let mb = (m * (n * p)) as int;
    assert(mb <= 5 * np) by (nonlinear_arith)
        requires
            mb == m * np,
            m <= 5,
            np >= 0,
    ;
    let vt = (v * t) as int;
    let tp = (t * p) as int;
    assert(2 * (vt * p) - 200 * tu <= tp && 200 * tu - 2 * (vt * p) <= tp) by (nonlinear_arith)
        requires
            2 * (vp - u100) <= p,
            2 * (u100 - vp) <= p,
            vp == v * p,
            u100 == u * 100,
            vt == v * t,
            tp == t * p,
            tu == t * u,
            t > 0,
    {
        assert((2 * (vp - u100)) * t <= p * t);
        assert((2 * (u100 - vp)) * t <= p * t);
        assert(vp * t == vt * p);
        assert(u100 * t == 100 * tu);
    }
    let c: int = 0x1_0000_0000_0000;
    assert(low == 16 * c);
    assert(16 * c * (tu - np) <= 5 * np && 16 * c * (np - tu) <= 5 * np);
    let w = vt * p;
    assert(c * (2 * w - 200 * np) <= c * tp + 200 * np && c * (200 * np - 2 * w) <= c * tp + 200
        * np);
    assert(c * (2 * vt - 200 * n) <= c * t + 200 * n && c * (200 * n - 2 * vt) <= c * t + 200 * n)
        by (nonlinear_arith)
        requires
            c * (2 * w - 200 * np) <= c * tp + 200 * np,
            c * (200 * np - 2 * w) <= c * tp + 200 * np,
            w == vt * p,
            np == n * p,
            tp == t * p,
            p > 0,
    {
        assert((c * (2 * vt - 200 * n)) * p == c * (2 * w - 200 * np));
        assert((c * (200 * n - 2 * vt)) * p == c * (200 * np - 2 * w));
        assert((c * t + 200 * n) * p == c * tp + 200 * np);
    }
}

/// A number with a fraction, in a unit, is as many bytes as the exact product
/// has, up to rounding: with `k` digits behind the point, what the digits stand
/// for, times the unit, divided by ten to the power `k`, is off by a half, and
/// by its part in `2^51`, at most. What is more than 64 bits hold is refused.
pub proof fn lemma_size_fraction(
    a: Seq<char>,
    whole: Seq<char>,
    frac: Seq<char>,
    gap: Seq<char>,
    unit: Seq<char>,
    b: Seq<char>,
    factor: nat,
) -> (size: nat)
    requires
        forall|i: int| 0 <= i < a.len() ==> text::is_space(#[trigger] a[i]),
        forall|i: int| 0 <= i < gap.len() ==> text::is_space(#[trigger] gap[i]),
        forall|i: int| 0 <= i < b.len() ==> text::is_space(#[trigger] b[i]),
        numeral::digits_only(whole),
        numeral::digits_only(frac),
        whole.len() + frac.len() > 0,
        unit.len() > 0 || gap.len() == 0,
        unit_factor(text::upper(unit)) == Some(factor),
        factor > 0,
    ensures
        size_of_text(a + (whole + seq!['.'] + frac + (gap + unit)) + b) == if size
            > 0x1_0000_0000_0000_0000 {
            SizeView::OutOfRange
        } else {
            SizeView::Bytes(binary64::clamp64(size))
        },
        ({
            let v = decimal::digits_value(
                numeral::digit_values(whole) + numeral::digit_values(frac),
            );
            let d = decimal::ten(frac.len());
            &&& 0x8_0000_0000_0000 * (2 * (size * d) - 2 * (v * factor)) <= 2 * (v * factor)
                + 0x8_0000_0000_0000 * d
            &&& 0x8_0000_0000_0000 * (2 * (v * factor) - 2 * (size * d)) <= 2 * (v * factor)
                + 0x8_0000_0000_0000 * d
        }),
{
    let num = whole + seq!['.'] + frac;
    numeral::lemma_numeral(whole, frac);
    assert forall|i: int| 0 <= i < num.len() implies numeral::is_digit(#[trigger] num[i]) || num[i]
        == '.' by {
        if i < whole.len() {
            assert(num[i] == whole[i]);
        } else if i > whole.len() {
            assert(num[i] == frac[i - whole.len() - 1]);
        }
    }
    lemma_size_of_unit(a, num, gap, unit, b);
    let v = decimal::digits_value(numeral::digit_values(whole) + numeral::digit_values(frac));
    let d = decimal::ten(frac.len());
    vstd::arithmetic::power::lemma_pow_positive(10, frac.len());
    decimal::lemma_product_near(v, d, factor);
    decimal::product(v, d, factor)
}

/// White space alone is no size; what does not begin with a digit or a point is
/// none either; and letters behind a number that name no unit are given back, in
/// upper case.
pub proof fn lemma_size_refused(
    a: Seq<char>,
    s: Seq<char>,
    n: nat,
    gap: Seq<char>,
    unit: Seq<char>,
    b: Seq<char>,
)
    requires
        forall|i: int| 0 <= i < a.len() ==> text::is_space(#[trigger] a[i]),
        forall|i: int| 0 <= i < gap.len() ==> text::is_space(#[trigger] gap[i]),
        forall|i: int| 0 <= i < b.len() ==> text::is_space(#[trigger] b[i]),
    ensures
        size_of_text(a) is Empty,
        s.len() > 0 && !text::is_space(s[0]) && !text::is_space(s.last()) && !numeral::is_digit(
            s[0],
        ) && s[0] != '.' ==> size_of_text(a + s + b) is Invalid,
        unit.len() > 0 && (forall|i: int|
            0 <= i < unit.len() ==> 'A' <= #[trigger] text::upper(unit)[i] <= 'Z') && unit_factor(
            text::upper(unit),
        ) is None ==> size_of_text(a + (text::decimal(n) + (gap + unit)) + b)
            == SizeView::UnknownSuffix(text::upper(unit)),
{
    let none = Seq::<char>::empty();
    text::lemma_trimmed(a, none, none);
    assert(a + none + none =~= a);
    numeral::lemma_numeral(none, none);
    if s.len() > 0 && !text::is_space(s[0]) && !text::is_space(s.last()) && !numeral::is_digit(s[0])
        && s[0] != '.' {
        text::lemma_trimmed(a, s, b);
        assert(s.take(0) =~= none);
    }
    if unit.len() > 0 && (forall|i: int|
        0 <= i < unit.len() ==> 'A' <= #[trigger] text::upper(unit)[i] <= 'Z') && unit_factor(
        text::upper(unit),
    ) is None {
        let num = text::decimal(n);
        numeral::lemma_decimal_value(n);
        numeral::lemma_numeral(num, none);
        lemma_size_split(a, num, gap, unit, b);
    }
}

/// Only the names that are known are units.
pub proof fn lemma_known_units(u: Seq<char>)
    ensures
        unit_factor(u) is Some ==> {
            ||| u == ""@
            ||| u == "B"@
            ||| u == "KB"@
            ||| u == "MB"@
            ||| u == "GB"@
            ||| u == "TB"@
            ||| u == "K"@
            ||| u == "M"@
            ||| u == "G"@
            ||| u == "T"@
            ||| u == "KI"@
            ||| u == "MI"@
            ||| u == "GI"@
            ||| u == "TI"@
            ||| u == "KIB"@
            ||| u == "MIB"@
            ||| u == "GIB"@
            ||| u == "TIB"@
        },
{
}

/// A number of gigabytes is a thousand times as many megabytes, and so on from
/// each unit to the one before it.
pub proof fn lemma_unit_ratios(n: nat)
    requires
        n * 1000 * 1000 * 1000 * 1000 < 0x20_0000_0000_0000,
        n * 1024 * 1024 * 1024 * 1024 < 0x20_0000_0000_0000,
    ensures
        size_of_text(text::decimal(n) + "KB"@) == size_of_text(text::decimal(n * 1000) + "B"@),
        size_of_text(text::decimal(n) + "MB"@) == size_of_text(text::decimal(n * 1000) + "KB"@),
        size_of_text(text::decimal(n) + "GB"@) == size_of_text(text::decimal(n * 1000) + "MB"@),
        size_of_text(text::decimal(n) + "TB"@) == size_of_text(text::decimal(n * 1000) + "GB"@),
        size_of_text(text::decimal(n) + "KiB"@) == size_of_text(text::decimal(n * 1024) + "B"@),
        size_of_text(text::decimal(n) + "MiB"@) == size_of_text(text::decimal(n * 1024) + "KiB"@),
        size_of_text(text::decimal(n) + "GiB"@) == size_of_text(text::decimal(n * 1024) + "MiB"@),
        size_of_text(text::decimal(n) + "TiB"@) == size_of_text(text::decimal(n * 1024) + "GiB"@),
{
    lemma_upper_units();
    let d = n * 1000;
    let e = n * 1024;
    lemma_unit(n, "KB"@, n * 1000);
    lemma_unit(d, "B"@, n * 1000);
    lemma_unit(n, "MB"@, n * 1000 * 1000);
    lemma_unit(d, "KB"@, n * 1000 * 1000);
    lemma_unit(n, "GB"@, n * 1000 * 1000 * 1000);
    lemma_unit(d, "MB"@, n * 1000 * 1000 * 1000);
    lemma_unit(n, "TB"@, n * 1000 * 1000 * 1000 * 1000);
    lemma_unit(d, "GB"@, n * 1000 * 1000 * 1000 * 1000);
    lemma_unit(n, "KiB"@, n * 1024);
    lemma_unit(e, "B"@, n * 1024);
    lemma_unit(n, "MiB"@, n * 1024 * 1024);
    lemma_unit(e, "KiB"@, n * 1024 * 1024);
    lemma_unit(n, "GiB"@, n * 1024 * 1024 * 1024);
    lemma_unit(e, "MiB"@, n * 1024 * 1024 * 1024);
    lemma_unit(n, "TiB"@, n * 1024 * 1024 * 1024 * 1024);
    lemma_unit(e, "GiB"@, n * 1024 * 1024 * 1024 * 1024);
}

/// The names of units in upper case.
proof fn lemma_upper_units()
    ensures
        text::upper("B"@) == "B"@,
        text::upper("KB"@) == "KB"@,
        text::upper("MB"@) == "MB"@,
        text::upper("GB"@) == "GB"@,
        text::upper("TB"@) == "TB"@,
        text::upper("KiB"@) == "KIB"@,
        text::upper("MiB"@) == "MIB"@,
        text::upper("GiB"@) == "GIB"@,
        text::upper("TiB"@) == "TIB"@,
        "B"@.len() > 0,
        "KB"@.len() > 0,
        "MB"@.len() > 0,
        "GB"@.len() > 0,
        "TB"@.len() > 0,
        "KiB"@.len() > 0,
        "MiB"@.len() > 0,
        "GiB"@.len() > 0,
        "TiB"@.len() > 0,
{
    reveal_strlit("B");
    reveal_strlit("KB");
    reveal_strlit("MB");
    reveal_strlit("GB");
    reveal_strlit("TB");
    reveal_strlit("KiB");
    reveal_strlit("MiB");
    reveal_strlit("GiB");
    reveal_strlit("TiB");
    reveal_strlit("KIB");
    reveal_strlit("MIB");
    reveal_strlit("GIB");
    reveal_strlit("TIB");
    assert(text::upper("B"@) =~= "B"@);
    assert(text::upper("KB"@) =~= "KB"@);
    assert(text::upper("MB"@) =~= "MB"@);
    assert(text::upper("GB"@) =~= "GB"@);
    assert(text::upper("TB"@) =~= "TB"@);
    assert(text::upper("KiB"@) =~= "KIB"@);
    assert(text::upper("MiB"@) =~= "MIB"@);
    assert(text::upper("GiB"@) =~= "GIB"@);
    assert(text::upper("TiB"@) =~= "TIB"@);
}

/// A whole number right before a unit.
proof fn lemma_unit(n: nat, unit: Seq<char>, bytes: nat)
    requires
        unit.len() > 0,
        bytes < 0x20_0000_0000_0000,
        ({
            let u = text::upper(unit);
            ||| u == "B"@ && bytes == n
            ||| u == "KB"@ && bytes == n * 1000
            ||| u == "MB"@ && bytes == n * 1000 * 1000
            ||| u == "GB"@ && bytes == n * 1000 * 1000 * 1000
            ||| u == "TB"@ && bytes == n * 1000 * 1000 * 1000 * 1000
            ||| u == "KIB"@ && bytes == n * 1024
            ||| u == "MIB"@ && bytes == n * 1024 * 1024
            ||| u == "GIB"@ && bytes == n * 1024 * 1024 * 1024
            ||| u == "TIB"@ && bytes == n * 1024 * 1024 * 1024 * 1024
        }),
    ensures
        size_of_text(text::decimal(n) + unit) == SizeView::Bytes(bytes as u64),
{
    let none = Seq::<char>::empty();
    lemma_units(none, n, none, unit, none, bytes);
    assert(none + (text::decimal(n) + (none + unit)) + none =~= text::decimal(n) + unit);
}

/// Hours, minutes and seconds stand in their places, minutes behind hours and
/// seconds behind minutes with two digits each; without hours, minutes come
/// first. What is less than a second does not count.
pub proof fn lemma_duration_fields(hours: nat, mins: nat, secs: nat, rest: nat)
    requires
        mins < 60,
        secs < 60,
        rest < 1000,
    ensures
        hours > 0 ==> duration_text(((hours * 60 + mins) * 60 + secs) * 1000 + rest)
            == text::decimal(hours) + seq![
            ':',
            text::digit_char(mins as int / 10),
            text::digit_char(mins as int % 10),
            ':',
            text::digit_char(secs as int / 10),
            text::digit_char(secs as int % 10),
        ],
        duration_text((mins * 60 + secs) * 1000 + rest) == text::decimal(mins) + seq![
            ':',
            text::digit_char(secs as int / 10),
            text::digit_char(secs as int % 10),
        ],
{
    reveal_strlit(":");
    assert(":"@ =~= seq![':']);
    lemma_two_digits(mins);
    lemma_two_digits(secs);
    let short = (mins * 60 + secs) * 1000 + rest;
    assert(short / 1000 == mins * 60 + secs);
    assert((mins * 60 + secs) % 60 == secs && (mins * 60 + secs) / 60 == mins);
    assert((mins * 60 + secs) / 3600 == 0);
    assert(mins % 60 == mins);
    assert(duration_text(short) =~= text::decimal(mins) + seq![
        ':',
        text::digit_char(secs as int / 10),
        text::digit_char(secs as int % 10),
    ]);
    if hours > 0 {
        let total = (hours * 60 + mins) * 60 + secs;
        let long = total * 1000 + rest;
        assert(long / 1000 == total);
        assert(total % 60 == secs && total / 60 == hours * 60 + mins);
        assert((hours * 60 + mins) % 60 == mins);
        assert(total / 3600 == hours);
        assert(duration_text(long) =~= text::decimal(hours) + seq![
            ':',
            text::digit_char(mins as int / 10),
            text::digit_char(mins as int % 10),
            ':',
            text::digit_char(secs as int / 10),
            text::digit_char(secs as int % 10),
        ]);
    }
}

proof fn lemma_two_digits(n: nat)
    requires
        n < 60,
    ensures
        text::two_digits(n) == seq![
            text::digit_char(n as int / 10),
            text::digit_char(n as int % 10),
        ],
{
    assert(text::digit_char(0) == '0');
    if n < 10 {
        assert(text::decimal(n) =~= seq![text::digit_char(n as int)]);
        assert(text::two_digits(n) =~= seq!['0', text::digit_char(n as int)]);
    } else {
        assert(text::decimal(n / 10) =~= seq![text::digit_char(n as int / 10)]);
        assert(text::two_digits(n) =~= seq![
            text::digit_char(n as int / 10),
            text::digit_char(n as int % 10),
        ]);
    }
}

} // verus!
