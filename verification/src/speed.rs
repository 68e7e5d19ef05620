//! Human-readable bit-rate labels for the tray tooltip and the tray icon.
use crate::binary64::{fixed_digits, float_fixed_digits};
use crate::text::{decimal, digit_char, digit_of, push_char, push_decimal};
use vstd::prelude::*;

verus! {

/// `x` tenths written with one decimal, as `{:.1}` prints a value already
/// rounded to tenths.
pub open spec fn one_decimal(x: nat) -> Seq<char> {
    decimal(x / 10).push('.').push(digit_char(x % 10))
}

/// The label `format_speed` gives a rate: one decimal and the largest unit
/// among Gbps, Mbps and Kbps that the rate reaches, else the plain number of bps.
/// The decimal is that of the binary64 quotient of the rate by the unit.
pub open spec fn speed_label(bps: nat) -> Seq<char> {
    if bps >= 1_000_000_000 {
        one_decimal(float_fixed_digits(bps, 1_000_000_000, 10)) + " Gbps"@
    } else if bps >= 1_000_000 {
        one_decimal(float_fixed_digits(bps, 1_000_000, 10)) + " Mbps"@
    } else if bps >= 1_000 {
        one_decimal(float_fixed_digits(bps, 1_000, 10)) + " Kbps"@
    } else {
        decimal(bps) + " bps"@
    }
}

/// The short label drawn on the tray icon: whole units from 100 M and 100 K
/// up and from 1 G, one decimal below that, and the plain number under 1 K.
pub open spec fn compact_label(bps: nat) -> Seq<char> {
    if bps >= 1_000_000_000 {
        decimal(float_fixed_digits(bps, 1_000_000_000, 1)).push('G')
    } else if bps >= 100_000_000 {
        decimal(float_fixed_digits(bps, 1_000_000, 1)).push('M')
    } else if bps >= 1_000_000 {
        one_decimal(float_fixed_digits(bps, 1_000_000, 10)).push('M')
    } else if bps >= 100_000 {
        decimal(float_fixed_digits(bps, 1_000, 1)).push('K')
    } else if bps >= 1_000 {
        one_decimal(float_fixed_digits(bps, 1_000, 10)).push('K')
    } else {
        decimal(bps)
    }
}

fn push_one_decimal(s: &mut String, x: u128)
    ensures
        final(s)@ == old(s)@ + one_decimal(x as nat),
{
    push_decimal(s, x / 10);
    push_char(s, '.');
    push_char(s, digit_of((x % 10) as u8));
    assert(s@ == old(s)@ + one_decimal(x as nat));
}

/// Formats a bit rate for the tooltip, such as `12.5 Mbps` or `640 bps`.
pub fn format_speed(bps: u64) -> (r: String)
    ensures
        r@ == speed_label(bps as nat),
{
    let mut s = String::new();
    if bps >= 1_000_000_000 {
        push_one_decimal(&mut s, fixed_digits(bps, 1_000_000_000, 10));
        s.append(" Gbps");
    } else if bps >= 1_000_000 {
        push_one_decimal(&mut s, fixed_digits(bps, 1_000_000, 10));
        s.append(" Mbps");
    } else if bps >= 1_000 {
        push_one_decimal(&mut s, fixed_digits(bps, 1_000, 10));
        s.append(" Kbps");
    } else {
        push_decimal(&mut s, bps as u128);
        s.append(" bps");
    }
    s
}

/// Formats a bit rate for the tray icon, such as `12M`, `1.5K` or `640`.
pub fn compact_speed(bps: u64) -> (r: String)
    ensures
        r@ == compact_label(bps as nat),
{
    let mut s = String::new();
    if bps >= 1_000_000_000 {
        push_decimal(&mut s, fixed_digits(bps, 1_000_000_000, 1));
        push_char(&mut s, 'G');
    } else if bps >= 100_000_000 {
        push_decimal(&mut s, fixed_digits(bps, 1_000_000, 1));
        push_char(&mut s, 'M');
    } else if bps >= 1_000_000 {
        push_one_decimal(&mut s, fixed_digits(bps, 1_000_000, 10));
        push_char(&mut s, 'M');
    } else if bps >= 100_000 {
        push_decimal(&mut s, fixed_digits(bps, 1_000, 1));
        push_char(&mut s, 'K');
    } else if bps >= 1_000 {
        push_one_decimal(&mut s, fixed_digits(bps, 1_000, 10));
        push_char(&mut s, 'K');
    } else {
        push_decimal(&mut s, bps as u128);
    }
    s
}

} // verus!
