//! Fixed-point arithmetic and decimal formatting.
//!
//! Coordinates and normalized box fractions are carried as signed integers in
//! millionths (micro units), so a value of `200_000` stands for `0.200000`.
//! Formatting a micro value with six decimal places is then exact.

use vstd::prelude::*;

verus! {

/// Largest magnitude, in micro units, that a parsed coordinate may have.
pub const MAX_COORD_MICRO: i64 = 9_000_000_000_000_000;

/// Division rounded to the nearest integer, ties away from zero.
pub open spec fn spec_round_div(n: int, d: int) -> int
    recommends
        d >= 1,
{
    if n >= 0 {
        (n + d / 2) / d
    } else {
        -(((-n) + d / 2) / d)
    }
}

/// Rounded division on machine integers, for micro-unit normalization.
pub fn round_div(n: i64, d: i64) -> (r: i64)
    requires
        1 <= d <= 2_000_000_000_000_000_000i64,
        -1_000_000_000_000_000_000i64 <= n <= 1_000_000_000_000_000_000i64,
    ensures
        r == spec_round_div(n as int, d as int),
{
    if n >= 0 {
        (n + d / 2) / d
    } else {
        -((-n + d / 2) / d)
    }
}

/// The character for one decimal digit.
pub open spec fn digit_char(d: nat) -> char
    recommends
        d < 10,
{
    if d == 0 {
        '0'
    } else if d == 1 {
        '1'
    } else if d == 2 {
        '2'
    } else if d == 3 {
        '3'
    } else if d == 4 {
        '4'
    } else if d == 5 {
        '5'
    } else if d == 6 {
        '6'
    } else if d == 7 {
        '7'
    } else if d == 8 {
        '8'
    } else {
        '9'
    }
}

/// The decimal digits of a natural number, most significant first.
pub open spec fn dec_digits(n: nat) -> Seq<char>
    decreases n,
{
    if n < 10 {
        seq![digit_char(n)]
    } else {
        dec_digits(n / 10).push(digit_char(n % 10))
    }
}

/// A one-character string slice for a single decimal digit.
fn digit_str(d: u64) -> (s: &'static str)
    requires
        d < 10,
    ensures
        s@ == seq![digit_char(d as nat)],
{
    proof {
        reveal_strlit("0");
        reveal_strlit("1");
        reveal_strlit("2");
        reveal_strlit("3");
        reveal_strlit("4");
        reveal_strlit("5");
        reveal_strlit("6");
        reveal_strlit("7");
        reveal_strlit("8");
        reveal_strlit("9");
    }
    if d == 0 {
        "0"
    } else if d == 1 {
        "1"
    } else if d == 2 {
        "2"
    } else if d == 3 {
        "3"
    } else if d == 4 {
        "4"
    } else if d == 5 {
        "5"
    } else if d == 6 {
        "6"
    } else if d == 7 {
        "7"
    } else if d == 8 {
        "8"
    } else {
        "9"
    }
}

/// Renders a natural number in decimal.
pub fn u64_to_string(n: u64) -> (s: String)
    ensures
        s@ == dec_digits(n as nat),
    decreases n,
{
    if n < 10 {
        String::from_str(digit_str(n))
    } else {
        let mut s = u64_to_string(n / 10);
        s.append(digit_str(n % 10));
        s
    }
}

/// The six digits after the decimal point for a fraction of one unit,
/// given in micro units.
pub open spec fn frac6(f: nat) -> Seq<char>
    recommends
        f < 1_000_000,
{
    seq![
        digit_char(f / 100_000 % 10),
        digit_char(f / 10_000 % 10),
        digit_char(f / 1_000 % 10),
        digit_char(f / 100 % 10),
        digit_char(f / 10 % 10),
        digit_char(f % 10),
    ]
}

/// The rendering of a micro-unit value with exactly six decimal places,
/// as `{:.6}` renders the same real value.
pub open spec fn spec_format_micro(v: int) -> Seq<char> {
    let a = (if v < 0 {
        -v
    } else {
        v
    }) as nat;
    let sign: Seq<char> = if v < 0 {
        seq!['-']
    } else {
        Seq::empty()
    };
    sign + dec_digits(a / 1_000_000) + seq!['.'] + frac6(a % 1_000_000)
}

/// Renders a micro-unit value with six decimal places.
pub fn format_micro(v: i64) -> (s: String)
    requires
        v > i64::MIN,
    ensures
        s@ == spec_format_micro(v as int),
{
    let a: u64 = if v < 0 {
        (-v) as u64
    } else {
        v as u64
    };
    let mut s = if v < 0 {
        proof {
            reveal_strlit("-");
        }
        String::from_str("-")
    } else {
        String::new()
    };
    let whole = u64_to_string(a / 1_000_000);
    s.append(whole.as_str());
    proof {
        reveal_strlit(".");
    }
    s.append(".");
    let f: u64 = a % 1_000_000;
    s.append(digit_str(f / 100_000 % 10));
    s.append(digit_str(f / 10_000 % 10));
    s.append(digit_str(f / 1_000 % 10));
    s.append(digit_str(f / 100 % 10));
    s.append(digit_str(f / 10 % 10));
    s.append(digit_str(f % 10));
    proof {
        assert(s@ =~= spec_format_micro(v as int));
    }
    s
}

} // verus!
