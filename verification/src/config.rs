//! The limits that the library works with unless it is told otherwise, and
//! sizes in words: `10MB`, `1.5 GB`, `500K`.

use vstd::prelude::*;
use vstd::string::StringExecFns;
use crate::text::{chars_of, copy_range, push_chars, push_str, string_of, trim, trim_bounds};

verus! {

/// The default limits.
pub struct Config;

impl Config {
    /// The most that one walk collects unless told otherwise: 5 MiB.
    pub const DEFAULT_MAX_SIZE: usize = 5 * 1024 * 1024;

    /// The largest file that is taken in unless told otherwise: 500 KiB.
    pub const DEFAULT_MAX_FILE_SIZE: usize = 500 * 1024;

    /// How many bytes at the start of a file are looked at to tell whether
    /// it is binary.
    pub const BINARY_CHECK_BUFFER_SIZE: usize = 8192;
}

/// The upper-case form of a text.
pub uninterp spec fn uppercase(text: Seq<char>) -> Seq<char>;

/// Whether a character is alphabetic.
pub uninterp spec fn alphabetic(c: char) -> bool;

/// The upper-case form of a text.
///
/// Trusted: wraps `str::to_uppercase`, which returns the upper-case
/// equivalent of the string as a new string; the result depends on the
/// characters of the string alone.
#[verifier::external_body]
fn to_uppercase(text: &str) -> (upper: String)
    ensures
        upper@ == uppercase(text@),
{
    text.to_uppercase()
}

/// Tells whether a character is alphabetic.
///
/// Trusted: wraps `char::is_alphabetic`, which tells whether the character
/// has the Unicode property `Alphabetic`; the result depends on the
/// character alone.
#[verifier::external_body]
fn is_alphabetic(c: char) -> (is: bool)
    ensures
        is == alphabetic(c),
{
    c.is_alphabetic()
}

/// Why a text is no size.
pub ghost enum SizeError {
    /// What stands before the unit is no decimal number.
    InvalidNumber(Seq<char>),
    /// The number is below zero.
    Negative,
    /// The unit is none of B, KB, K, MB, M, GB, G.
    UnknownUnit(Seq<char>),
    /// The size comes to no byte at all.
    Zero,
}

/// What the error says.
pub open spec fn error_text(error: SizeError) -> Seq<char> {
    match error {
        SizeError::InvalidNumber(number) => "Invalid number: "@ + number,
        SizeError::Negative => "Size cannot be negative"@,
        SizeError::UnknownUnit(unit) => "Unknown unit: "@ + unit + ". Use B, KB, MB, or GB"@,
        SizeError::Zero => "Size must be greater than 0"@,
    }
}

/// The place of the first alphabetic character of a text, or its length.
pub open spec fn unit_start(text: Seq<char>) -> nat
    decreases text.len(),
{
    if text.len() == 0 || alphabetic(text[0]) {
        0
    } else {
        1 + unit_start(text.skip(1))
    }
}

/// The place of the first point of a text, or its length.
pub open spec fn point_place(text: Seq<char>) -> nat
    decreases text.len(),
{
    if text.len() == 0 || text[0] == '.' {
        0
    } else {
        1 + point_place(text.skip(1))
    }
}

/// Whether a character is one of the digits 0 to 9.
pub open spec fn is_digit(c: char) -> bool {
    0x30 <= c as u32 <= 0x39
}

/// Whether a text holds digits only.
pub open spec fn all_digits(text: Seq<char>) -> bool {
    forall|i: int| 0 <= i < text.len() ==> is_digit(#[trigger] text[i])
}

/// Whether a text of digits holds a digit other than 0.
pub open spec fn some_nonzero(text: Seq<char>) -> bool {
    exists|i: int| 0 <= i < text.len() && #[trigger] text[i] != '0'
}

/// The number that a digit stands for.
pub open spec fn digit_value(c: char) -> nat {
    (c as u32 - 0x30) as nat
}

/// The number that a text of digits stands for; the empty text stands for
/// zero.
pub open spec fn digits_value(digits: Seq<char>) -> nat
    decreases digits.len(),
{
    if digits.len() == 0 {
        0
    } else {
        digits_value(digits.drop_last()) * 10 + digit_value(digits.last())
    }
}

/// Ten to the power of `n`.
pub open spec fn pow10(n: nat) -> nat
    decreases n,
{
    if n == 0 {
        1
    } else {
        10 * pow10((n - 1) as nat)
    }
}

/// A decimal number in digits: a sign, the digits before the point and the
/// digits behind it.
pub ghost struct DecimalSpec {
    pub negative: bool,
    pub whole: Seq<char>,
    pub fraction: Seq<char>,
}

/// The decimal number that a text writes, if it writes one: a sign or
/// none, then digits with at most one point among them, and one digit at
/// least.
pub open spec fn parsed_decimal(text: Seq<char>) -> Option<DecimalSpec> {
    let signed = text.len() > 0 && (text[0] == '+' || text[0] == '-');
    let body = if signed {
        text.skip(1)
    } else {
        text
    };
    let point = point_place(body) as int;
    let whole = body.take(point);
    let fraction = if point < body.len() {
        body.skip(point + 1)
    } else {
        Seq::empty()
    };
    if all_digits(whole) && all_digits(fraction) && whole.len() + fraction.len() > 0 {
        Some(DecimalSpec { negative: signed && text[0] == '-', whole, fraction })
    } else {
        None
    }
}

/// The bytes in a unit, if the text names one. Units are written in upper
/// case.
pub open spec fn unit_bytes(unit: Seq<char>) -> Option<nat> {
    if unit == seq!['B'] || unit.len() == 0 {
        Some(1nat)
    } else if unit == seq!['K', 'B'] || unit == seq!['K'] {
        Some(1024nat)
    } else if unit == seq!['M', 'B'] || unit == seq!['M'] {
        Some(1024nat * 1024)
    } else if unit == seq!['G', 'B'] || unit == seq!['G'] {
        Some(1024nat * 1024 * 1024)
    } else {
        None
    }
}

/// The whole bytes in so many units: the number times the bytes of the
/// unit, a fraction of a byte left off.
pub open spec fn whole_bytes(number: DecimalSpec, unit: nat) -> nat {
    let scale = pow10(number.fraction.len());
    ((digits_value(number.whole) * scale + digits_value(number.fraction)) * unit / scale) as nat
}

/// The part of a size that writes the number: what stands before the
/// first letter, without the white space around it.
pub open spec fn number_part(text: Seq<char>) -> Seq<char> {
    let upper = uppercase(trim(text));
    number_before(upper, unit_start(upper) as int)
}

/// The part of a size that names the unit, in upper case: what begins
/// with the first letter; without a letter the unit is the byte.
pub open spec fn unit_part(text: Seq<char>) -> Seq<char> {
    let upper = uppercase(trim(text));
    unit_from(upper, unit_start(upper) as int)
}

/// The size that a number and a unit name, the unit in upper case. The
/// number is looked at first, then its sign, then the unit. A size that no
/// `usize` holds comes to the largest `usize`.
pub open spec fn parts_size(number: Seq<char>, unit: Seq<char>) -> Result<usize, SizeError> {
    match parsed_decimal(number) {
        None => Err(SizeError::InvalidNumber(number)),
        Some(decimal) => if decimal.negative && (some_nonzero(decimal.whole) || some_nonzero(
            decimal.fraction,
        )) {
            Err(SizeError::Negative)
        } else {
            match unit_bytes(unit) {
                None => Err(SizeError::UnknownUnit(unit)),
                Some(bytes) => {
                    let size = whole_bytes(decimal, bytes);
                    if size == 0 {
                        Err(SizeError::Zero)
                    } else if size > usize::MAX {
                        Ok(usize::MAX)
                    } else {
                        Ok(size as usize)
                    }
                },
            }
        },
    }
}

/// The size that a text names. White space around the text counts for
/// nothing, nor does the case of letters.
pub open spec fn parsed_size(text: Seq<char>) -> Result<usize, SizeError> {
    parts_size(number_part(text), unit_part(text))
}

/// The whole bytes in the fraction of a number of units: the digits behind
/// the point, taken as a fraction, times the bytes of the unit, a fraction
/// of a byte left off.
pub open spec fn fraction_bytes(fraction: Seq<char>, unit: nat) -> nat
    decreases fraction.len(),
{
    if fraction.len() == 0 {
        0
    } else {
        (digit_value(fraction[0]) * unit + fraction_bytes(fraction.skip(1), unit)) / 10
    }
}

/// A text of digits stands for its first digit times a power of ten, and
/// the rest.
proof fn lemma_digits_value_front(digits: Seq<char>)
    requires
        digits.len() > 0,
    ensures
        digits_value(digits) == digit_value(digits[0]) * pow10((digits.len() - 1) as nat)
            + digits_value(digits.skip(1)),
    decreases digits.len(),
{
    if digits.len() == 1 {
        assert(digits.drop_last().len() == 0);
        assert(digits.skip(1).len() == 0);
        assert(digits_value(digits.drop_last()) == 0);
        assert(digits_value(digits.skip(1)) == 0);
        assert(digits.last() == digits[0]);
        assert(pow10(0) == 1);
        assert(digits_value(digits) == digit_value(digits[0]));
        assert(digit_value(digits[0]) * pow10((digits.len() - 1) as nat) == digit_value(
            digits[0],
        )) by (nonlinear_arith)
            requires
                pow10((digits.len() - 1) as nat) == 1,
        ;
    } else {
        let front = digits.drop_last();
        let tail = digits.skip(1);
        lemma_digits_value_front(front);
        assert(front.skip(1) =~= tail.drop_last());
        assert(tail.last() == digits.last());
        assert(front[0] == digits[0]);
        let d = digit_value(digits[0]) as int;
        let p = pow10((digits.len() - 2) as nat) as int;
        let rest = digits_value(front.skip(1)) as int;
        let last = digit_value(digits.last()) as int;
        assert(pow10((digits.len() - 1) as nat) == 10 * p);
        assert(digits_value(front) == d * p + rest);
        assert(digits_value(digits) == digits_value(front) * 10 + last);
        assert(tail.len() > 0);
        assert(digits_value(tail) == digits_value(tail.drop_last()) * 10 + digit_value(
            tail.last(),
        ));
        assert(digits_value(tail) == rest * 10 + last);
        assert((d * p + rest) * 10 == d * (10 * p) + rest * 10) by (nonlinear_arith);
        assert(digits_value(digits) == d * (10 * p) + digits_value(tail));
        assert(d * pow10((digits.len() - 1) as nat) == d * (10 * p)) by (nonlinear_arith)
            requires
                pow10((digits.len() - 1) as nat) == 10 * p,
        ;
    }
}

/// A text of digits stands for less than ten to the power of its length.
proof fn lemma_digits_value_bound(digits: Seq<char>)
    requires
        all_digits(digits),
    ensures
        digits_value(digits) < pow10(digits.len()),
    decreases digits.len(),
{
    if digits.len() > 0 {
        assert(is_digit(digits.last()));
        assert forall|i: int| 0 <= i < digits.drop_last().len() implies is_digit(
            #[trigger] digits.drop_last()[i],
        ) by {
            assert(is_digit(digits[i]));
        }
        lemma_digits_value_bound(digits.drop_last());
    }
}

/// `fraction_bytes` is the fraction times the unit, a fraction of a byte
/// left off.
proof fn lemma_fraction_bytes(fraction: Seq<char>, unit: nat)
    requires
        all_digits(fraction),
    ensures
        fraction_bytes(fraction, unit) == digits_value(fraction) * unit / pow10(fraction.len()),
        fraction_bytes(fraction, unit) <= unit,
    decreases fraction.len(),
{
    if fraction.len() == 0 {
        assert(digits_value(fraction) * unit == 0) by (nonlinear_arith)
            requires
                digits_value(fraction) == 0,
        ;
    } else {
        let tail = fraction.skip(1);
        assert forall|i: int| 0 <= i < tail.len() implies is_digit(#[trigger] tail[i]) by {
            assert(is_digit(fraction[i + 1]));
        }
        assert(is_digit(fraction[0]));
        lemma_fraction_bytes(tail, unit);
        lemma_digits_value_front(fraction);
        let d = digit_value(fraction[0]) as int;
        let p = pow10(tail.len()) as int;
        let t = digits_value(tail) as int;
        let m = unit as int;
        assert(pow10(fraction.len()) == 10 * p);
        assert(p > 0) by {
            lemma_pow10_positive(tail.len());
        }
        assert((d * p + t) * m == t * m + (d * m) * p) by (nonlinear_arith);
        assert(0 <= t * m) by (nonlinear_arith)
            requires
                0 <= t,
                0 <= m,
        ;
        vstd::arithmetic::div_mod::lemma_hoist_over_denominator(t * m, d * m, p as nat);
        assert(0 <= (d * p + t) * m) by (nonlinear_arith)
            requires
                0 <= t,
                0 <= m,
                0 <= d,
                0 <= p,
        ;
        vstd::arithmetic::div_mod::lemma_div_denominator((d * p + t) * m, p, 10);
        assert(p * 10 == 10 * p);
        assert(d * m <= 9 * m) by (nonlinear_arith)
            requires
                0 <= d <= 9,
                0 <= m,
        ;
    }
}

/// Every power of ten is positive.
proof fn lemma_pow10_positive(n: nat)
    ensures
        pow10(n) > 0,
    decreases n,
{
    if n > 0 {
        lemma_pow10_positive((n - 1) as nat);
    }
}

/// The whole bytes of a number of units: those of its whole part and those
/// of its fraction.
proof fn lemma_whole_bytes(number: DecimalSpec, unit: nat)
    requires
        all_digits(number.fraction),
    ensures
        whole_bytes(number, unit) == digits_value(number.whole) * unit + fraction_bytes(
            number.fraction,
            unit,
        ),
{
    let w = digits_value(number.whole) as int;
    let f = digits_value(number.fraction) as int;
    let p = pow10(number.fraction.len()) as int;
    let m = unit as int;
    lemma_pow10_positive(number.fraction.len());
    lemma_fraction_bytes(number.fraction, unit);
    assert((w * p + f) * m == f * m + (w * m) * p) by (nonlinear_arith);
    vstd::arithmetic::div_mod::lemma_hoist_over_denominator(f * m, w * m, p as nat);
    assert(0 <= w * m) by (nonlinear_arith)
        requires
            0 <= w,
            0 <= m,
    ;
}

/// The number that a digit stands for.
fn value_of_digit(c: char) -> (value: u8)
    requires
        is_digit(c),
    ensures
        value == digit_value(c),
        value <= 9,
{
    ((c as u32) - 0x30) as u8
}

/// Tells whether the characters of `text[from..to]` are digits.
fn digits_only(text: &[char], from: usize, to: usize) -> (digits: bool)
    requires
        from <= to <= text.len(),
    ensures
        digits == all_digits(text@.subrange(from as int, to as int)),
{
    let ghost part = text@.subrange(from as int, to as int);
    let mut i: usize = from;
    while i < to
        invariant
            from <= i <= to <= text.len(),
            part == text@.subrange(from as int, to as int),
            forall|k: int| 0 <= k < i - from ==> is_digit(#[trigger] part[k]),
        decreases to - i,
    {
        let c = text[i];
        assert(part[i - from] == c);
        if !(0x30 <= c as u32 && c as u32 <= 0x39) {
            return false;
        }
        i += 1;
    }
    true
}

/// Tells whether a digit other than 0 stands in `text[from..to]`.
fn any_nonzero(text: &[char], from: usize, to: usize) -> (found: bool)
    requires
        from <= to <= text.len(),
    ensures
        found == some_nonzero(text@.subrange(from as int, to as int)),
{
    let ghost part = text@.subrange(from as int, to as int);
    let mut i: usize = from;
    while i < to
        invariant
            from <= i <= to <= text.len(),
            part == text@.subrange(from as int, to as int),
            forall|k: int| 0 <= k < i - from ==> #[trigger] part[k] == '0',
        decreases to - i,
    {
        assert(part[i - from] == text@[i as int]);
        if text[i] != '0' {
            return true;
        }
        i += 1;
    }
    false
}

/// The number that the digits `text[from..to]` stand for, `None` where it
/// is larger than every `u64`.
fn whole_value(text: &[char], from: usize, to: usize) -> (value: Option<u64>)
    requires
        from <= to <= text.len(),
        all_digits(text@.subrange(from as int, to as int)),
    ensures
        match value {
            Some(n) => n == digits_value(text@.subrange(from as int, to as int)),
            None => digits_value(text@.subrange(from as int, to as int)) > u64::MAX,
        },
{
    let ghost part = text@.subrange(from as int, to as int);
    let mut acc: u64 = 0;
    let mut i: usize = from;
    assert(part.take(0).len() == 0);
    while i < to
        invariant
            from <= i <= to <= text.len(),
            part == text@.subrange(from as int, to as int),
            all_digits(part),
            acc == digits_value(part.take(i - from)),
        decreases to - i,
    {
        let c = text[i];
        proof {
            assert(part[i - from] == c);
            assert(part.take(i - from + 1).drop_last() =~= part.take(i - from));
            assert(part.take(i - from + 1).last() == c);
        }
        let d = value_of_digit(c);
        let next = match acc.checked_mul(10) {
            Some(tenfold) => tenfold.checked_add(d as u64),
            None => None,
        };
        match next {
            Some(n) => {
                acc = n;
            },
            None => {
                proof {
                    lemma_digits_value_grows(part, i - from + 1);
                }
                return None;
            },
        }
        i += 1;
    }
    assert(part.take(to - from) =~= part);
    Some(acc)
}

/// A text of digits stands for no less than the digits it begins with.
proof fn lemma_digits_value_grows(digits: Seq<char>, n: int)
    requires
        0 <= n <= digits.len(),
    ensures
        digits_value(digits.take(n)) <= digits_value(digits),
    decreases digits.len() - n,
{
    if n < digits.len() {
        lemma_digits_value_grows(digits, n + 1);
        assert(digits.take(n + 1).drop_last() =~= digits.take(n));
    } else {
        assert(digits.take(n) =~= digits);
    }
}

/// The whole bytes in the fraction `text[from..to]` of a number of units.
fn fraction_value(text: &[char], from: usize, to: usize, unit: u64) -> (value: u64)
    requires
        from <= to <= text.len(),
        all_digits(text@.subrange(from as int, to as int)),
        unit <= 0x4000_0000,
    ensures
        value == fraction_bytes(text@.subrange(from as int, to as int), unit as nat),
        value <= unit,
{
    let ghost part = text@.subrange(from as int, to as int);
    let mut value: u64 = 0;
    let mut i: usize = to;
    assert(part.skip(to - from).len() == 0);
    while i > from
        invariant
            from <= i <= to <= text.len(),
            part == text@.subrange(from as int, to as int),
            all_digits(part),
            unit <= 0x4000_0000,
            value <= unit,
            value == fraction_bytes(part.skip(i - from), unit as nat),
        decreases i,
    {
        i -= 1;
        let c = text[i];
        proof {
            assert(part[i - from] == c);
            assert(part.skip(i - from)[0] == c);
            assert(part.skip(i - from).skip(1) =~= part.skip(i - from + 1));
        }
        let d = value_of_digit(c);
        assert(d as u64 * unit <= 9 * unit) by (nonlinear_arith)
            requires
                d <= 9,
        ;
        value = (d as u64 * unit + value) / 10;
    }
    assert(part.skip(0) =~= part);
    value
}

/// The bytes in a unit written in upper case, if it is one.
fn bytes_of_unit(unit: &[char]) -> (bytes: Option<u64>)
    ensures
        match bytes {
            Some(n) => unit_bytes(unit@) == Some(n as nat) && 1 <= n <= 0x4000_0000,
            None => unit_bytes(unit@) is None,
        },
{
    let len = unit.len();
    if len == 0 {
        return Some(1);
    }
    if len > 2 || (len == 2 && unit[1] != 'B') {
        return None;
    }
    let first = unit[0];
    if len == 1 {
        assert(unit@ =~= seq![first]);
    } else {
        assert(unit@ =~= seq![first, 'B']);
    }
    if first == 'B' && len == 1 {
        Some(1)
    } else if first == 'K' {
        Some(1024)
    } else if first == 'M' {
        Some(1024 * 1024)
    } else if first == 'G' {
        Some(1024 * 1024 * 1024)
    } else {
        None
    }
}

/// The text of an error that names a part of the input.
fn error_naming(before: &str, part: &[char], after: &str) -> (text: String)
    ensures
        text@ == before@ + part@ + after@,
{
    let mut out: Vec<char> = Vec::new();
    push_str(&mut out, before);
    push_chars(&mut out, part);
    push_str(&mut out, after);
    assert(out@ =~= before@ + part@ + after@);
    string_of(out.as_slice())
}

/// What `parse_size` gives for what the text names.
pub open spec fn size_result(parsed: Result<usize, SizeError>) -> Result<usize, Seq<char>> {
    match parsed {
        Ok(size) => Ok(size),
        Err(error) => Err(error_text(error)),
    }
}

/// The number of a size, given the place where its unit begins: what
/// stands before that place, without the white space around it. A place
/// behind the end of the text counts as its end.
pub open spec fn number_before(text: Seq<char>, start: int) -> Seq<char> {
    if start < text.len() {
        trim(text.take(start))
    } else {
        trim(text)
    }
}

/// The unit of a size, given the place where it begins: what stands from
/// there on; a size that ends there counts bytes.
pub open spec fn unit_from(text: Seq<char>, start: int) -> Seq<char> {
    if start < text.len() {
        text.skip(start)
    } else {
        seq!['B']
    }
}

/// Parts a size in two at the place where its unit begins: the number,
/// without the white space around it, and the unit, which is the byte
/// where the size ends at that place or before it.
pub fn parts_at(text: &str, start: usize) -> (parts: (String, String))
    ensures
        parts.0@ == number_before(text@, start as int),
        parts.1@ == unit_from(text@, start as int),
{
    let chars = chars_of(text);
    let start = if start > chars.len() {
        chars.len()
    } else {
        start
    };
    let before_unit = copy_range(chars.as_slice(), 0, start);
    assert(before_unit@ =~= chars@.take(start as int));
    assert(chars@.take(chars.len() as int) =~= chars@);
    let (number_from, number_to) = trim_bounds(before_unit.as_slice());
    let number = copy_range(before_unit.as_slice(), number_from, number_to);
    let unit = if start < chars.len() {
        let unit = copy_range(chars.as_slice(), start, chars.len());
        assert(unit@ =~= chars@.skip(start as int));
        unit
    } else {
        let mut unit: Vec<char> = Vec::new();
        unit.push('B');
        assert(unit@ =~= seq!['B']);
        unit
    };
    (string_of(number.as_slice()), string_of(unit.as_slice()))
}

/// The two parts of a size, the unit in upper case.
fn size_parts(size_str: &str) -> (parts: (String, String))
    ensures
        parts.0@ == number_part(size_str@),
        parts.1@ == unit_part(size_str@),
{
    let raw = chars_of(size_str);
    let (raw_from, raw_to) = trim_bounds(raw.as_slice());
    let trimmed = string_of(copy_range(raw.as_slice(), raw_from, raw_to).as_slice());
    let upper_string = to_uppercase(trimmed.as_str());
    let upper = chars_of(upper_string.as_str());
    assert(upper@ == uppercase(trim(size_str@)));

    let mut start: usize = 0;
    assert(upper@.skip(0) =~= upper@);
    while start < upper.len() && !is_alphabetic(upper[start])
        invariant
            start <= upper.len(),
            unit_start(upper@) == start + unit_start(upper@.skip(start as int)),
        decreases upper.len() - start,
    {
        assert(upper@.skip(start as int).skip(1) =~= upper@.skip(start + 1));
        start += 1;
    }
    assert(unit_start(upper@) == start);
    parts_at(upper_string.as_str(), start)
}

/// Where the parts of a decimal number stand in a text.
struct DecimalPlaces {
    /// Whether the number has a minus sign.
    negative: bool,
    /// Where the digits before the point begin.
    whole_from: usize,
    /// Where they end.
    whole_to: usize,
    /// Where the digits behind the point begin; they go on to the end.
    fraction_from: usize,
}

/// Finds the parts of the decimal number that a text writes, if it writes
/// one.
fn decimal_places(number: &[char]) -> (places: Option<DecimalPlaces>)
    ensures
        match places {
            Some(found) => found.whole_from <= found.whole_to <= found.fraction_from
                <= number.len() && parsed_decimal(number@) == Some(
                DecimalSpec {
                    negative: found.negative,
                    whole: number@.subrange(found.whole_from as int, found.whole_to as int),
                    fraction: number@.subrange(found.fraction_from as int, number.len() as int),
                },
            ) && all_digits(number@.subrange(found.whole_from as int, found.whole_to as int))
                && all_digits(number@.subrange(found.fraction_from as int, number.len() as int)),
            None => parsed_decimal(number@) is None,
        },
{
    let signed = number.len() > 0 && (number[0] == '+' || number[0] == '-');
    let negative = signed && number[0] == '-';
    let body_from: usize = if signed {
        1
    } else {
        0
    };
    let ghost body = number@.skip(body_from as int);
    let mut point: usize = body_from;
    assert(number@.skip(0) =~= number@);
    assert(body.skip(0) =~= body);
    while point < number.len() && number[point] != '.'
        invariant
            body_from <= point <= number.len(),
            body == number@.skip(body_from as int),
            point_place(body) == (point - body_from) + point_place(body.skip(point - body_from)),
        decreases number.len() - point,
    {
        assert(body.skip(point - body_from).skip(1) =~= body.skip(point - body_from + 1));
        assert(body.skip(point - body_from)[0] == number@[point as int]);
        point += 1;
    }
    proof {
        if point < number.len() {
            assert(body.skip(point - body_from)[0] == number@[point as int]);
        }
        assert(point_place(body) == point - body_from);
    }
    let fraction_from: usize = if point < number.len() {
        point + 1
    } else {
        point
    };
    let ghost whole = number@.subrange(body_from as int, point as int);
    let ghost fraction = number@.subrange(fraction_from as int, number.len() as int);
    proof {
        assert(whole =~= body.take(point_place(body) as int));
        if point < number.len() {
            assert(fraction =~= body.skip(point_place(body) as int + 1));
        } else {
            assert(fraction =~= Seq::<char>::empty());
        }
    }
    if !digits_only(number, body_from, point) {
        return None;
    }
    if !digits_only(number, fraction_from, number.len()) {
        return None;
    }
    if (point - body_from) + (number.len() - fraction_from) == 0 {
        return None;
    }
    Some(DecimalPlaces { negative, whole_from: body_from, whole_to: point, fraction_from })
}

/// The whole bytes in a number of units, `None` where no `u64` and so no
/// `usize` holds them.
fn bytes_in(number: &[char], places: &DecimalPlaces, unit: u64) -> (size: Option<u128>)
    requires
        places.whole_from <= places.whole_to <= places.fraction_from <= number.len(),
        all_digits(number@.subrange(places.whole_from as int, places.whole_to as int)),
        all_digits(number@.subrange(places.fraction_from as int, number.len() as int)),
        1 <= unit <= 0x4000_0000,
    ensures
        match size {
            Some(n) => n == whole_bytes(
                DecimalSpec {
                    negative: places.negative,
                    whole: number@.subrange(places.whole_from as int, places.whole_to as int),
                    fraction: number@.subrange(places.fraction_from as int, number.len() as int),
                },
                unit as nat,
            ),
            None => whole_bytes(
                DecimalSpec {
                    negative: places.negative,
                    whole: number@.subrange(places.whole_from as int, places.whole_to as int),
                    fraction: number@.subrange(places.fraction_from as int, number.len() as int),
                },
                unit as nat,
            ) > u64::MAX,
        },
{
    let ghost decimal = DecimalSpec {
        negative: places.negative,
        whole: number@.subrange(places.whole_from as int, places.whole_to as int),
        fraction: number@.subrange(places.fraction_from as int, number.len() as int),
    };
    proof {
        lemma_whole_bytes(decimal, unit as nat);
    }
    let behind = fraction_value(number, places.fraction_from, number.len(), unit);
    match whole_value(number, places.whole_from, places.whole_to) {
        Some(before) => {
            assert(before as u128 * unit as u128 <= 0xffff_ffff_ffff_ffff * 0x4000_0000)
                by (nonlinear_arith)
                requires
                    before <= 0xffff_ffff_ffff_ffff,
                    unit <= 0x4000_0000,
            ;
            Some(before as u128 * unit as u128 + behind as u128)
        },
        None => {
            assert(digits_value(decimal.whole) * unit >= digits_value(decimal.whole))
                by (nonlinear_arith)
                requires
                    unit >= 1,
            ;
            None
        },
    }
}

/// The size that a number and a unit name: a decimal number, and a unit
/// of B, KB or K, MB or M, GB or G in upper case, or no unit, which is the
/// byte. Units are binary. A fraction of a byte is left off. The error
/// says what is wrong.
pub fn size_from_parts(number: &str, unit: &str) -> (result: Result<usize, String>)
    ensures
        (match result {
            Ok(size) => Ok::<usize, Seq<char>>(size),
            Err(text) => Err(text@),
        }) == size_result(parts_size(number@, unit@)),
{
    let number = chars_of(number);
    let unit = chars_of(unit);
    let places = match decimal_places(number.as_slice()) {
        Some(places) => places,
        None => {
            proof {
                reveal_strlit("");
                assert("Invalid number: "@ + number@ + ""@ =~= "Invalid number: "@ + number@);
            }
            return Err(error_naming("Invalid number: ", number.as_slice(), ""));
        },
    };
    if places.negative && (any_nonzero(number.as_slice(), places.whole_from, places.whole_to)
        || any_nonzero(number.as_slice(), places.fraction_from, number.len())) {
        return Err(String::from_str("Size cannot be negative"));
    }
    let bytes = match bytes_of_unit(unit.as_slice()) {
        Some(bytes) => bytes,
        None => {
            return Err(error_naming("Unknown unit: ", unit.as_slice(), ". Use B, KB, MB, or GB"));
        },
    };
    match bytes_in(number.as_slice(), &places, bytes) {
        None => Ok(usize::MAX),
        Some(size) => {
            if size == 0 {
                Err(String::from_str("Size must be greater than 0"))
            } else if size > usize::MAX as u128 {
                Ok(usize::MAX)
            } else {
                Ok(size as usize)
            }
        },
    }
}

/// Parses a size in words, such as `10MB`, `1.5 GB` or `500K`: a decimal
/// number, then a unit of B, KB or K, MB or M, GB or G, in either case; a
/// number alone counts bytes. White space around the size and around the
/// number counts for nothing. What the two parts come to is
/// `size_from_parts`.
pub fn parse_size(size_str: &str) -> (result: Result<usize, String>)
    ensures
        (match result {
            Ok(size) => Ok::<usize, Seq<char>>(size),
            Err(text) => Err(text@),
        }) == size_result(parsed_size(size_str@)),
{
    let (number, unit) = size_parts(size_str);
    size_from_parts(number.as_str(), unit.as_str())
}

} // verus!
