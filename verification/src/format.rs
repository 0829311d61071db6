//! Byte counts in words: `1.50 KB`, `5MB`.
//!
//! Units are binary: a KB is 1024 bytes. Fractions are exact and rounded to
//! the nearest digit, a tie going to the even digit.

use vstd::prelude::*;
use crate::text::{
    decimal, decimal_padded, push_decimal, push_decimal_padded, push_str, string_of,
};

verus! {

/// The bytes in a KB.
pub const KB: u64 = 1024;

/// The bytes in a MB.
pub const MB: u64 = 1024 * 1024;

/// The bytes in a GB.
pub const GB: u64 = 1024 * 1024 * 1024;

/// The bytes in a TB.
pub const TB: u64 = 1024 * 1024 * 1024 * 1024;

/// The largest unit that a byte count reaches, as its number of bytes.
pub open spec fn unit_of(bytes: nat) -> nat {
    if bytes < KB {
        1
    } else if bytes < MB {
        KB as nat
    } else if bytes < GB {
        MB as nat
    } else if bytes < TB {
        GB as nat
    } else {
        TB as nat
    }
}

/// The name of a unit.
pub open spec fn unit_name(unit: nat) -> Seq<char> {
    if unit == 1 {
        "B"@
    } else if unit == KB {
        "KB"@
    } else if unit == MB {
        "MB"@
    } else if unit == GB {
        "GB"@
    } else {
        "TB"@
    }
}

/// How many digits follow the point: none for a whole number of units, else
/// two below ten units, one below a hundred, none from there on.
pub open spec fn fraction_digits(bytes: nat, unit: nat) -> nat {
    if bytes % unit == 0 {
        0
    } else if bytes < 10 * unit {
        2
    } else if bytes < 100 * unit {
        1
    } else {
        0
    }
}

/// Ten to the power of 0, 1 or 2.
pub open spec fn scale_of(digits: nat) -> nat {
    if digits == 0 {
        1
    } else if digits == 1 {
        10
    } else {
        100
    }
}

/// The quotient of `num` by `den`, rounded to the nearest whole number, a
/// tie going to the even one.
pub open spec fn rounded_quotient(num: nat, den: nat) -> nat {
    let q = num / den;
    let r = num % den;
    if 2 * r < den || (2 * r == den && q % 2 == 0) {
        q
    } else {
        q + 1
    }
}

/// A number of `scale_of(digits)`-ths in decimal notation with `digits`
/// digits behind the point.
pub open spec fn fixed_point(scaled: nat, digits: nat) -> Seq<char> {
    if digits == 0 {
        decimal(scaled)
    } else {
        decimal(scaled / scale_of(digits)) + "."@ + decimal_padded(
            scaled % scale_of(digits),
            digits,
        )
    }
}

/// A byte count in its largest unit.
pub open spec fn formatted_size(bytes: nat) -> Seq<char> {
    let unit = unit_of(bytes);
    let digits = fraction_digits(bytes, unit);
    fixed_point(rounded_quotient(bytes * scale_of(digits), unit), digits) + " "@ + unit_name(unit)
}

/// A byte count as a whole number of the largest unit that divides it,
/// without a space before the unit.
pub open spec fn formatted_as_unit(bytes: nat) -> Seq<char> {
    if bytes >= GB && bytes % (GB as nat) == 0 {
        decimal(bytes / (GB as nat)) + "GB"@
    } else if bytes >= MB && bytes % (MB as nat) == 0 {
        decimal(bytes / (MB as nat)) + "MB"@
    } else if bytes >= KB && bytes % (KB as nat) == 0 {
        decimal(bytes / (KB as nat)) + "KB"@
    } else {
        decimal(bytes) + " bytes"@
    }
}

/// The largest unit that a byte count reaches.
fn largest_unit(amount: u128) -> (unit: u128)
    ensures
        unit == unit_of(amount as nat),
        unit == 1 || unit == KB || unit == MB || unit == GB || unit == TB,
{
    if amount < KB as u128 {
        1
    } else if amount < MB as u128 {
        KB as u128
    } else if amount < GB as u128 {
        MB as u128
    } else if amount < TB as u128 {
        GB as u128
    } else {
        TB as u128
    }
}

/// How many digits follow the point.
fn digits_for(amount: u128, unit: u128) -> (digits: u8)
    requires
        unit == 1 || unit == KB || unit == MB || unit == GB || unit == TB,
    ensures
        digits == fraction_digits(amount as nat, unit as nat),
        digits <= 2,
{
    if amount % unit == 0 {
        0
    } else if amount / unit < 10 {
        assert(amount < 10 * unit);
        2
    } else if amount / unit < 100 {
        assert(10 * unit <= amount < 100 * unit);
        1
    } else {
        assert(amount >= 100 * unit);
        0
    }
}

/// The quotient rounded to the nearest whole number, a tie to the even one.
pub fn rounded_div(num: u128, den: u128) -> (rounded: u128)
    requires
        0 < den <= u128::MAX / 2,
    ensures
        rounded == rounded_quotient(num as nat, den as nat),
{
    let q: u128 = num / den;
    let r: u128 = num % den;
    if 2 * r < den || (2 * r == den && q % 2 == 0) {
        q
    } else {
        assert(den >= 2);
        assert(q <= num / 2) by (nonlinear_arith)
            requires
                q == num / den,
                den >= 2,
        ;
        q + 1
    }
}

/// Appends a number of `scale_of(digits)`-ths with `digits` digits behind
/// the point.
pub fn push_fixed_point(out: &mut Vec<char>, scaled: u128, digits: u8)
    requires
        digits <= 2,
    ensures
        final(out)@ == old(out)@ + fixed_point(scaled as nat, digits as nat),
{
    if digits == 0 {
        push_decimal(out, scaled);
    } else {
        let scale: u128 = if digits == 1 {
            10
        } else {
            100
        };
        push_decimal(out, scaled / scale);
        push_str(out, ".");
        push_decimal_padded(out, scaled % scale, digits);
    }
    assert(out@ =~= old(out)@ + fixed_point(scaled as nat, digits as nat));
}

/// Appends the name of a unit.
fn push_unit_name(out: &mut Vec<char>, unit: u128)
    ensures
        final(out)@ == old(out)@ + unit_name(unit as nat),
{
    if unit == 1 {
        push_str(out, "B");
    } else if unit == KB as u128 {
        push_str(out, "KB");
    } else if unit == MB as u128 {
        push_str(out, "MB");
    } else if unit == GB as u128 {
        push_str(out, "GB");
    } else {
        push_str(out, "TB");
    }
}

/// Formats byte counts.
pub struct ByteFormatter;

impl ByteFormatter {
    /// Formats a byte count in its largest unit: `512 B`, `1.50 KB`, `5 MB`.
    pub fn format(bytes: usize) -> (text: String)
        ensures
            text@ == formatted_size(bytes as nat),
    {
        let mut out: Vec<char> = Vec::new();
        Self::push_size(&mut out, bytes);
        string_of(out.as_slice())
    }

    /// Appends a byte count in its largest unit.
    pub fn push_size(out: &mut Vec<char>, bytes: usize)
        ensures
            final(out)@ == old(out)@ + formatted_size(bytes as nat),
    {
        Self::push_amount(out, bytes as u128);
    }

    /// Appends a byte count in its largest unit; the count may be the sum
    /// of two sizes.
    pub fn push_amount(out: &mut Vec<char>, amount: u128)
        requires
            amount <= 2 * u64::MAX,
        ensures
            final(out)@ == old(out)@ + formatted_size(amount as nat),
    {
        let unit = largest_unit(amount);
        let digits = digits_for(amount, unit);
        let num: u128 = if digits == 0 {
            amount
        } else if digits == 1 {
            amount * 10
        } else {
            amount * 100
        };
        assert(num == (amount as nat) * scale_of(digits as nat)) by {
            if digits == 0 {
                assert(scale_of(digits as nat) == 1);
            } else if digits == 1 {
                assert(scale_of(digits as nat) == 10);
            } else {
                assert(scale_of(digits as nat) == 100);
            }
        }
        let scaled = rounded_div(num, unit);
        let ghost before = out@;
        push_fixed_point(out, scaled, digits);
        push_str(out, " ");
        push_unit_name(out, unit);
        assert(out@ =~= before + (fixed_point(scaled as nat, digits as nat) + " "@ + unit_name(
            unit as nat,
        )));
    }

    /// Formats a byte count as a whole number of the largest unit that
    /// divides it: `5MB`, `1GB`, `1500 bytes`.
    pub fn format_as_unit(bytes: usize) -> (text: String)
        ensures
            text@ == formatted_as_unit(bytes as nat),
    {
        let mut out: Vec<char> = Vec::new();
        Self::push_as_unit(&mut out, bytes);
        string_of(out.as_slice())
    }

    /// Appends a byte count as a whole number of the largest unit that
    /// divides it.
    pub fn push_as_unit(out: &mut Vec<char>, bytes: usize)
        ensures
            final(out)@ == old(out)@ + formatted_as_unit(bytes as nat),
    {
        let amount: u128 = bytes as u128;
        let ghost before = out@;
        if amount >= GB as u128 && amount % (GB as u128) == 0 {
            push_decimal(out, amount / (GB as u128));
            push_str(out, "GB");
        } else if amount >= MB as u128 && amount % (MB as u128) == 0 {
            push_decimal(out, amount / (MB as u128));
            push_str(out, "MB");
        } else if amount >= KB as u128 && amount % (KB as u128) == 0 {
            push_decimal(out, amount / (KB as u128));
            push_str(out, "KB");
        } else {
            push_decimal(out, amount);
            push_str(out, " bytes");
        }
        assert(out@ =~= before + formatted_as_unit(bytes as nat));
    }
}

} // verus!
