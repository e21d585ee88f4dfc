//! Rendering of a nanosecond count as a short human-readable duration,
//! such as `"1.500ms"` picking the largest unit the value reaches.

use vstd::prelude::*;
use vstd::string::StringExecFns;

verus! {

pub const MICROSECOND: u128 = 1000;

pub const MILLISECOND: u128 = MICROSECOND * 1000;

pub const SECOND: u128 = MILLISECOND * 1000;

pub const MINUTE: u128 = SECOND * 60;

pub const HOUR: u128 = MINUTE * 6;

pub const DAY: u128 = HOUR * 24;

/// The character for a single decimal digit.
pub open spec fn digit_char(d: int) -> char {
    if d == 0 {
        '0'
    } else if d == 1 {
        '1'
    } else if d == 2 {
        '2'
    } else if d == 3 {
        '3'
    } else if d == 4 {
        '4'
    } else if d == 5 {
        '5'
    } else if d == 6 {
        '6'
    } else if d == 7 {
        '7'
    } else if d == 8 {
        '8'
    } else {
        '9'
    }
}

/// The decimal representation of `n`, most significant digit first.
pub open spec fn dec_str(n: int) -> Seq<char>
    decreases n,
{
    if n < 10 {
        seq![digit_char(n)]
    } else {
        dec_str(n / 10).push(digit_char(n % 10))
    }
}

/// What `format_unit` produces: integer part, a dot, the first
/// `digits` decimals truncated, and the unit label. The fraction is
/// printed as a bare number, without padding to `digits` places.
pub open spec fn unit_str(nanos: u128, label: Seq<char>, factor: u128, pow: u128) -> Seq<char> {
    dec_str(nanos as int / factor as int) + seq!['.'] + dec_str(
        (nanos as int % factor as int) * pow as int / factor as int,
    ) + label
}

/// The rendering `format_duration` produces for `time_nanos`.
pub open spec fn duration_str(t: u128) -> Seq<char> {
    if t < MICROSECOND {
        dec_str(t as int) + "ns"@
    } else if t < MILLISECOND {
        unit_str(t, "us"@, MICROSECOND, 1000)
    } else if t < SECOND {
        unit_str(t, "ms"@, MILLISECOND, 1000)
    } else if t < MINUTE {
        unit_str(t, "s"@, SECOND, 1000)
    } else if t < HOUR {
        unit_str(t, "m"@, MINUTE, 1000)
    } else if t < DAY {
        unit_str(t, "h"@, HOUR, 1000)
    } else {
        unit_str(t, "d"@, DAY, 1000)
    }
}

/// One decimal digit as a string slice.
fn digit_str(d: u128) -> (r: &'static str)
    requires
        d < 10,
    ensures
        r@ =~= seq![digit_char(d as int)],
{
    proof {
        reveal_strlit("0");
        reveal_strlit("1");
        reveal_strlit("2");
        reveal_strlit("3");
        reveal_strlit("4");
        reveal_strlit("5");
        reveal_strlit("6");
        reveal_strlit("7");
        reveal_strlit("8");
        reveal_strlit("9");
    }
    match d {
        0 => "0",
        1 => "1",
        2 => "2",
        3 => "3",
        4 => "4",
        5 => "5",
        6 => "6",
        7 => "7",
        8 => "8",
        _ => "9",
    }
}

/// The decimal representation of `n`.
pub fn u128_to_string(n: u128) -> (r: String)
    ensures
        r@ == dec_str(n as int),
    decreases n,
{
    if n < 10 {
        String::from_str(digit_str(n))
    } else {
        let mut s = u128_to_string(n / 10);
        s.append(digit_str(n % 10));
        assert(s@ =~= dec_str(n as int));
        s
    }
}

/// Renders `nanos` in units of `factor` with `pow` giving the scale of the
/// fractional part (1000 for three decimals).
fn format_unit(nanos: u128, units_label: &str, units_factor: u128, pow: u128) -> (r: String)
    requires
        units_factor > 0,
        units_factor as int * pow as int <= u128::MAX as int,
    ensures
        r@ == unit_str(nanos, units_label@, units_factor, pow),
{
    let integer_digits = nanos / units_factor;
    let rem = nanos % units_factor;
    proof {
        assert(rem as int * pow as int <= units_factor as int * pow as int) by (nonlinear_arith)
            requires
                rem as int <= units_factor as int,
                pow as int >= 0,
        ;
    }
    let fraction_digits = rem * pow / units_factor;
    let mut s = u128_to_string(integer_digits);
    proof {
        reveal_strlit(".");
    }
    s.append(".");
    let frac = u128_to_string(fraction_digits);
    s.append(frac.as_str());
    s.append(units_label);
    assert(s@ =~= unit_str(nanos, units_label@, units_factor, pow));
    s
}

/// Renders a nanosecond count with the largest unit it reaches and three
/// (unpadded) fractional digits.
pub fn format_duration(time_nanos: u128) -> (r: String)
    ensures
        r@ == duration_str(time_nanos),
{
    let t = time_nanos;
    if t < MICROSECOND {
        let mut s = u128_to_string(t);
        proof {
            reveal_strlit("ns");
        }
        s.append("ns");
        assert(s@ =~= duration_str(t));
        s
    } else if t < MILLISECOND {
        format_unit(t, "us", MICROSECOND, 1000)
    } else if t < SECOND {
        format_unit(t, "ms", MILLISECOND, 1000)
    } else if t < MINUTE {
        format_unit(t, "s", SECOND, 1000)
    } else if t < HOUR {
        format_unit(t, "m", MINUTE, 1000)
    } else if t < DAY {
        format_unit(t, "h", HOUR, 1000)
    } else {
        format_unit(t, "d", DAY, 1000)
    }
}

} // verus!
