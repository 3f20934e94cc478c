//! A reader for the textual input documents.
//!
//! Both input schemas are carried as structured text: objects, arrays,
//! strings, numbers, booleans and null. The reader turns one document into a
//! `Json` tree. Numbers are held in micro units (see `num`) together with a
//! flag telling whether the literal was written as an integer; a magnitude
//! beyond the coordinate range is saturated and marked, so that it can pass
//! through fields the pipeline discards. Nesting is limited so that reading
//! cannot exhaust the stack.
//!
//! The reader is specified by a mirror over the text itself: `spec_parse_json`
//! says what every input reads to, and `parse_json` is proved to return
//! exactly that, so the result is a function of the characters alone.

use vstd::prelude::*;
use crate::model::ParseError;
use crate::num::{spec_round_div, MAX_COORD_MICRO};

verus! {

/// Deepest nesting of arrays and objects a document may use.
pub const MAX_DEPTH: u32 = 128;

/// Relies on `char::from_u32`: a Unicode scalar value decodes to its
/// character; a surrogate or out-of-range value decodes to nothing.
pub assume_specification[ char::from_u32 ](i: u32) -> (r: Option<char>)
    ensures
        r matches Some(c) ==> c as u32 == i,
        (r is Some) <==> (i < 0xD800 || (0xE000 <= i && i <= 0x10FFFF)),
;

/// Relies on `String::push`: appends exactly the one character.
pub assume_specification[ String::push ](s: &mut String, ch: char)
    ensures
        final(s)@ == old(s)@.push(ch),
;

/// One structured value.
#[derive(Debug)]
pub enum Json {
    Null,
    Bool(bool),
    /// A number in micro units. `integral` records that the literal was
    /// written as a plain integer, as an integer field requires. `big` marks
    /// a magnitude beyond the coordinate range: `micro` is then saturated,
    /// and only fields the pipeline discards may carry such a value.
    Num { micro: i64, integral: bool, big: bool },
    Str(String),
    Arr(Vec<Json>),
    Obj(Vec<(String, Json)>),
}

/// Every number in the tree fits a coordinate.
pub open spec fn json_bounded(j: Json) -> bool
    decreases j, 1int,
{
    match j {
        Json::Num { micro, .. } => -MAX_COORD_MICRO <= micro <= MAX_COORD_MICRO,
        Json::Arr(v) => seq_bounded(v@),
        Json::Obj(v) => fields_bounded(v@),
        _ => true,
    }
}

pub open spec fn seq_bounded(s: Seq<Json>) -> bool
    decreases s, 0int,
{
    s.len() == 0 || (json_bounded(s.last()) && seq_bounded(s.drop_last()))
}

pub open spec fn fields_bounded(s: Seq<(String, Json)>) -> bool
    decreases s, 0int,
{
    s.len() == 0 || (json_bounded(s.last().1) && fields_bounded(s.drop_last()))
}

/// An element of a bounded sequence is bounded.
pub proof fn lemma_seq_bounded_index(s: Seq<Json>, k: int)
    requires
        seq_bounded(s),
        0 <= k < s.len(),
    ensures
        json_bounded(s[k]),
    decreases s.len(),
{
    if k < s.len() - 1 {
        lemma_seq_bounded_index(s.drop_last(), k);
        assert(s.drop_last()[k] == s[k]);
    }
}

/// A field value of a bounded field list is bounded.
pub proof fn lemma_fields_bounded_index(s: Seq<(String, Json)>, k: int)
    requires
        fields_bounded(s),
        0 <= k < s.len(),
    ensures
        json_bounded(s[k].1),
    decreases s.len(),
{
    if k < s.len() - 1 {
        lemma_fields_bounded_index(s.drop_last(), k);
        assert(s.drop_last()[k] == s[k]);
    }
}

proof fn lemma_seq_bounded_push(s: Seq<Json>, x: Json)
    requires
        seq_bounded(s),
        json_bounded(x),
    ensures
        seq_bounded(s.push(x)),
{
    assert(s.push(x).drop_last() =~= s);
    assert(s.push(x).last() == x);
}

proof fn lemma_fields_bounded_push(s: Seq<(String, Json)>, key: String, x: Json)
    requires
        fields_bounded(s),
        json_bounded(x),
    ensures
        fields_bounded(s.push((key, x))),
{
    assert(s.push((key, x)).drop_last() =~= s);
    assert(s.push((key, x)).last() == (key, x));
}

/// Whitespace between tokens.
pub open spec fn is_ws(c: char) -> bool {
    c == ' ' || c == '\t' || c == '\n' || c == '\r'
}

/// The first position at or after `i` that holds no whitespace.
pub open spec fn spec_skip_ws(s: Seq<char>, i: int) -> int
    decreases s.len() - i when 0 <= i <= s.len()
{
    if i < s.len() && is_ws(s[i]) {
        spec_skip_ws(s, i + 1)
    } else {
        i
    }
}

/// Advances past whitespace.
fn skip_ws(s: &str, i: usize) -> (j: usize)
    requires
        i <= s@.len(),
    ensures
        i <= j <= s@.len(),
        j < s@.len() ==> !is_ws(s@[j as int]),
        j == spec_skip_ws(s@, i as int),
{
    let n = s.unicode_len();
    let mut j = i;
    while j < n
        invariant
            n == s@.len(),
            i <= j <= n,
            spec_skip_ws(s@, i as int) == spec_skip_ws(s@, j as int),
        decreases n - j,
    {
        let c = s.get_char(j);
        if !(c == ' ' || c == '\t' || c == '\n' || c == '\r') {
            return j;
        }
        j += 1;
    }
    j
}

/// A decimal digit's value, if `c` is one.
pub open spec fn spec_digit_val(c: char) -> Option<u8> {
    match c {
        '0' => Some(0u8),
        '1' => Some(1u8),
        '2' => Some(2u8),
        '3' => Some(3u8),
        '4' => Some(4u8),
        '5' => Some(5u8),
        '6' => Some(6u8),
        '7' => Some(7u8),
        '8' => Some(8u8),
        '9' => Some(9u8),
        _ => None,
    }
}

fn digit_val(c: char) -> (r: Option<u8>)
    ensures
        r == spec_digit_val(c),
        r matches Some(d) ==> d < 10,
{
    match c {
        '0' => Some(0),
        '1' => Some(1),
        '2' => Some(2),
        '3' => Some(3),
        '4' => Some(4),
        '5' => Some(5),
        '6' => Some(6),
        '7' => Some(7),
        '8' => Some(8),
        '9' => Some(9),
        _ => None,
    }
}

/// The integer-part digits folded into the significand: digits extend the
/// mantissa until precision is exhausted, then only shift the magnitude.
pub open spec fn spec_int_digits(s: Seq<char>, pos: int, mant: int, scale: int) -> (int, int, int)
    decreases s.len() - pos when 0 <= pos <= s.len()
{
    if pos < s.len() && spec_digit_val(s[pos]) is Some {
        let d = spec_digit_val(s[pos])->0;
        if mant < 100_000_000_000_000_000 {
            spec_int_digits(s, pos + 1, mant * 10 + d, scale)
        } else if scale < 1_000_000 {
            spec_int_digits(s, pos + 1, mant, scale + 1)
        } else {
            spec_int_digits(s, pos + 1, mant, scale)
        }
    } else {
        (mant, scale, pos)
    }
}

/// The fraction digits folded into the significand, each lowering the scale
/// while precision lasts.
pub open spec fn spec_frac_digits(s: Seq<char>, pos: int, mant: int, scale: int) -> (int, int, int)
    decreases s.len() - pos when 0 <= pos <= s.len()
{
    if pos < s.len() && spec_digit_val(s[pos]) is Some {
        let d = spec_digit_val(s[pos])->0;
        if mant < 100_000_000_000_000_000 && scale > -1_000_000 {
            spec_frac_digits(s, pos + 1, mant * 10 + d, scale - 1)
        } else {
            spec_frac_digits(s, pos + 1, mant, scale)
        }
    } else {
        (mant, scale, pos)
    }
}

/// The exponent digits folded into a capped exponent value.
pub open spec fn spec_exp_digits(s: Seq<char>, pos: int, ee: int) -> (int, int)
    decreases s.len() - pos when 0 <= pos <= s.len()
{
    if pos < s.len() && spec_digit_val(s[pos]) is Some {
        let d = spec_digit_val(s[pos])->0;
        if ee < 2_000_000 {
            spec_exp_digits(s, pos + 1, ee * 10 + d)
        } else {
            spec_exp_digits(s, pos + 1, ee)
        }
    } else {
        (ee, pos)
    }
}

/// Ten to a small power, clamped at the largest needed.
pub open spec fn spec_pow10(k: int) -> int {
    if k <= 0 {
        1
    } else if k == 1 {
        10
    } else if k == 2 {
        100
    } else if k == 3 {
        1_000
    } else if k == 4 {
        10_000
    } else if k == 5 {
        100_000
    } else if k == 6 {
        1_000_000
    } else if k == 7 {
        10_000_000
    } else if k == 8 {
        100_000_000
    } else if k == 9 {
        1_000_000_000
    } else if k == 10 {
        10_000_000_000
    } else if k == 11 {
        100_000_000_000
    } else if k == 12 {
        1_000_000_000_000
    } else if k == 13 {
        10_000_000_000_000
    } else if k == 14 {
        100_000_000_000_000
    } else if k == 15 {
        1_000_000_000_000_000
    } else if k == 16 {
        10_000_000_000_000_000
    } else if k == 17 {
        100_000_000_000_000_000
    } else {
        1_000_000_000_000_000_000
    }
}

/// The micro-unit value of `mant * 10^scale`, rounded half away from zero,
/// saturated at the coordinate bound and marked big when saturated.
pub open spec fn spec_micro_of_parts(mant: int, scale: int) -> (int, bool) {
    if mant == 0 {
        (0int, false)
    } else {
        let s6 = scale + 6;
        if s6 >= 0 {
            if s6 > 15 {
                (MAX_COORD_MICRO as int, true)
            } else {
                let p = spec_pow10(s6);
                if mant > MAX_COORD_MICRO as int / p {
                    (MAX_COORD_MICRO as int, true)
                } else {
                    let v = mant * p;
                    if v > MAX_COORD_MICRO as int {
                        (MAX_COORD_MICRO as int, true)
                    } else {
                        (v, false)
                    }
                }
            }
        } else {
            let k = -s6;
            if k > 18 {
                (0int, false)
            } else {
                let v = spec_round_div(mant, spec_pow10(k));
                if v > MAX_COORD_MICRO as int {
                    (MAX_COORD_MICRO as int, true)
                } else {
                    (v, false)
                }
            }
        }
    }
}

/// The signed micro value, flags and end of a finished number.
pub open spec fn spec_num_finish(mant: int, scale: int, pos: int, neg: bool, integral: bool)
    -> Result<((int, bool, bool), int), ParseError> {
    let mb = spec_micro_of_parts(mant, scale);
    Ok(
        ((
            if neg {
                -mb.0
            } else {
                mb.0
            },
            integral,
            mb.1,
        ), pos),
    )
}

/// What reading a number starting at `i` yields: an optional sign, an
/// integer part without leading zeros, an optional fraction, an optional
/// exponent; then the value in micro units.
pub open spec fn spec_parse_number(s: Seq<char>, i: int) -> Result<
    ((int, bool, bool), int),
    ParseError,
>
    recommends
        0 <= i < s.len(),
{
    let neg = s[i] == '-';
    let pos0 = if neg {
        i + 1
    } else {
        i
    };
    if pos0 >= s.len() || spec_digit_val(s[pos0]) is None {
        Err(ParseError::Syntax)
    } else {
        let d0 = spec_digit_val(s[pos0])->0;
        if d0 == 0 && pos0 + 1 < s.len() && spec_digit_val(s[pos0 + 1]) is Some {
            Err(ParseError::Syntax)
        } else {
            let t1 = if d0 > 0 {
                spec_int_digits(s, pos0 + 1, d0 as int, 0)
            } else {
                (0int, 0int, pos0 + 1)
            };
            let has_frac = t1.2 < s.len() && s[t1.2] == '.';
            if has_frac && (t1.2 + 1 >= s.len() || spec_digit_val(s[t1.2 + 1]) is None) {
                Err(ParseError::Syntax)
            } else {
                let t2 = if has_frac {
                    spec_frac_digits(s, t1.2 + 1, t1.0, t1.1)
                } else {
                    t1
                };
                let has_exp = t2.2 < s.len() && (s[t2.2] == 'e' || s[t2.2] == 'E');
                if !has_exp {
                    spec_num_finish(t2.0, t2.1, t2.2, neg, !has_frac)
                } else {
                    let pe0 = t2.2 + 1;
                    let esigned = pe0 < s.len() && (s[pe0] == '+' || s[pe0] == '-');
                    let eneg = pe0 < s.len() && s[pe0] == '-';
                    let pe1 = if esigned {
                        pe0 + 1
                    } else {
                        pe0
                    };
                    if pe1 >= s.len() || spec_digit_val(s[pe1]) is None {
                        Err(ParseError::Syntax)
                    } else {
                        let te = spec_exp_digits(s, pe1, 0);
                        let scale2 = if eneg {
                            t2.1 - te.0
                        } else {
                            t2.1 + te.0
                        };
                        spec_num_finish(t2.0, scale2, te.1, neg, false)
                    }
                }
            }
        }
    }
}

/// Reads a number starting at `i`, exactly as `spec_parse_number` says.
#[verifier::rlimit(60)]
fn parse_number(s: &str, i: usize) -> (r: Result<((i64, bool, bool), usize), ParseError>)
    requires
        i < s@.len(),
    ensures
        r matches Ok(((m, integral, big), j)) ==> i < j <= s@.len() && -MAX_COORD_MICRO <= m
            <= MAX_COORD_MICRO,
        match r {
            Ok(((m, integral, big), j)) => spec_parse_number(s@, i as int) == Ok::<
                ((int, bool, bool), int),
                ParseError,
            >(((m as int, integral, big), j as int)),
            Err(e) => spec_parse_number(s@, i as int) == Err::<
                ((int, bool, bool), int),
                ParseError,
            >(e),
        },
{
    let n = s.unicode_len();
    let mut pos = i;
    let neg = s.get_char(pos) == '-';
    if neg {
        pos += 1;
    }
    if pos >= n {
        return Err(ParseError::Syntax);
    }
    // the significant digits, as value = mant * 10^scale
    let mut mant: i64 = match digit_val(s.get_char(pos)) {
        Some(d) => d as i64,
        None => {
            return Err(ParseError::Syntax);
        },
    };
    let mut scale: i64 = 0;
    let ghost pos0 = pos as int;
    let ghost d0 = mant as int;
    pos += 1;
    if mant > 0 {
        while pos < n && digit_val(s.get_char(pos)).is_some()
            invariant
                n == s@.len(),
                i < pos <= n,
                0 <= mant < 1_000_000_000_000_000_000i64,
                0 <= scale <= 1_000_000i64,
                spec_int_digits(s@, pos0 + 1, d0, 0) == spec_int_digits(
                    s@,
                    pos as int,
                    mant as int,
                    scale as int,
                ),
            decreases n - pos,
        {
            let d = match digit_val(s.get_char(pos)) {
                Some(d) => d,
                None => 0,
            };
            if mant < 100_000_000_000_000_000i64 {
                mant = mant * 10 + d as i64;
            } else if scale < 1_000_000 {
                scale = scale + 1;
            }
            pos += 1;
        }
        proof {
            assert(spec_int_digits(s@, pos as int, mant as int, scale as int) == (
                mant as int,
                scale as int,
                pos as int,
            ));
        }
    } else {
        // a leading zero admits no further integer digits
        if pos < n && digit_val(s.get_char(pos)).is_some() {
            return Err(ParseError::Syntax);
        }
    }
    let ghost t1 = (mant as int, scale as int, pos as int);
    let mut integral = true;
    if pos < n && s.get_char(pos) == '.' {
        integral = false;
        pos += 1;
        if pos >= n || digit_val(s.get_char(pos)).is_none() {
            return Err(ParseError::Syntax);
        }
        let ghost fstart = pos as int;
        while pos < n && digit_val(s.get_char(pos)).is_some()
            invariant
                n == s@.len(),
                i < pos <= n,
                0 <= mant < 1_000_000_000_000_000_000i64,
                -1_000_000i64 <= scale <= 1_000_000i64,
                spec_frac_digits(s@, fstart, t1.0, t1.1) == spec_frac_digits(
                    s@,
                    pos as int,
                    mant as int,
                    scale as int,
                ),
            decreases n - pos,
        {
            let d = match digit_val(s.get_char(pos)) {
                Some(d) => d,
                None => 0,
            };
            if mant < 100_000_000_000_000_000i64 && scale > -1_000_000 {
                mant = mant * 10 + d as i64;
                scale = scale - 1;
            }
            pos += 1;
        }
        proof {
            assert(spec_frac_digits(s@, pos as int, mant as int, scale as int) == (
                mant as int,
                scale as int,
                pos as int,
            ));
        }
    }
    let ghost t2 = (mant as int, scale as int, pos as int);
    if pos < n && (s.get_char(pos) == 'e' || s.get_char(pos) == 'E') {
        integral = false;
        pos += 1;
        let mut eneg = false;
        if pos < n && (s.get_char(pos) == '+' || s.get_char(pos) == '-') {
            eneg = s.get_char(pos) == '-';
            pos += 1;
        }
        if pos >= n || digit_val(s.get_char(pos)).is_none() {
            return Err(ParseError::Syntax);
        }
        let ghost pe1 = pos as int;
        let mut ee: i64 = 0;
        while pos < n && digit_val(s.get_char(pos)).is_some()
            invariant
                n == s@.len(),
                i < pos <= n,
                0 <= ee <= 20_000_000i64,
                spec_exp_digits(s@, pe1, 0) == spec_exp_digits(s@, pos as int, ee as int),
            decreases n - pos,
        {
            let d = match digit_val(s.get_char(pos)) {
                Some(d) => d,
                None => 0,
            };
            if ee < 2_000_000 {
                ee = ee * 10 + d as i64;
            }
            pos += 1;
        }
        proof {
            assert(spec_exp_digits(s@, pos as int, ee as int) == (ee as int, pos as int));
        }
        if eneg {
            scale = scale - ee;
        } else {
            scale = scale + ee;
        }
    }
    let (micro, big) = micro_of_parts(mant, scale);
    let m = if neg {
        -micro
    } else {
        micro
    };
    Ok(((m, integral, big), pos))
}

/// The micro value of the gathered parts, as `spec_micro_of_parts` says.
fn micro_of_parts(mant: i64, scale: i64) -> (r: (i64, bool))
    requires
        0 <= mant < 1_000_000_000_000_000_000i64,
        -21_000_000i64 <= scale <= 21_000_000i64,
    ensures
        0 <= r.0 <= MAX_COORD_MICRO,
        (r.0 as int, r.1) == spec_micro_of_parts(mant as int, scale as int),
{
    if mant == 0 {
        return (0, false);
    }
    let s6 = scale + 6;
    if s6 >= 0 {
        if s6 > 15 {
            // even a single unit lands beyond the coordinate bound
            return (MAX_COORD_MICRO, true);
        }
        let p = pow10(s6 as u32);
        if mant > MAX_COORD_MICRO / p {
            return (MAX_COORD_MICRO, true);
        }
        proof {
            vstd::arithmetic::div_mod::lemma_fundamental_div_mod(MAX_COORD_MICRO as int, p as int);
            vstd::arithmetic::div_mod::lemma_mod_bound(MAX_COORD_MICRO as int, p as int);
            assert(mant * p <= (MAX_COORD_MICRO / p) * p) by (nonlinear_arith)
                requires
                    0 <= mant <= MAX_COORD_MICRO / p,
                    p >= 1,
            ;
            assert((MAX_COORD_MICRO / p) * p == p * (MAX_COORD_MICRO / p)) by (nonlinear_arith);
        }
        let v = mant * p;
        if v > MAX_COORD_MICRO {
            (MAX_COORD_MICRO, true)
        } else {
            (v, false)
        }
    } else {
        let k = -s6;
        if k > 18 {
            // the value rounds to zero at micro precision
            return (0, false);
        }
        let p = pow10(k as u32);
        let v = crate::num::round_div(mant, p);
        if v > MAX_COORD_MICRO {
            (MAX_COORD_MICRO, true)
        } else {
            (v, false)
        }
    }
}

/// Ten to a small power.
fn pow10(k: u32) -> (p: i64)
    requires
        k <= 18,
    ensures
        1 <= p <= 1_000_000_000_000_000_000i64,
        p == spec_pow10(k as int),
{
    if k == 0 {
        1
    } else if k == 1 {
        10
    } else if k == 2 {
        100
    } else if k == 3 {
        1_000
    } else if k == 4 {
        10_000
    } else if k == 5 {
        100_000
    } else if k == 6 {
        1_000_000
    } else if k == 7 {
        10_000_000
    } else if k == 8 {
        100_000_000
    } else if k == 9 {
        1_000_000_000
    } else if k == 10 {
        10_000_000_000
    } else if k == 11 {
        100_000_000_000
    } else if k == 12 {
        1_000_000_000_000
    } else if k == 13 {
        10_000_000_000_000
    } else if k == 14 {
        100_000_000_000_000
    } else if k == 15 {
        1_000_000_000_000_000
    } else if k == 16 {
        10_000_000_000_000_000
    } else if k == 17 {
        100_000_000_000_000_000
    } else {
        1_000_000_000_000_000_000
    }
}

/// The value of one hexadecimal digit, if `c` is one.
pub open spec fn spec_hex_val(c: char) -> Option<u32> {
    match c {
        '0' => Some(0u32),
        '1' => Some(1u32),
        '2' => Some(2u32),
        '3' => Some(3u32),
        '4' => Some(4u32),
        '5' => Some(5u32),
        '6' => Some(6u32),
        '7' => Some(7u32),
        '8' => Some(8u32),
        '9' => Some(9u32),
        'a' | 'A' => Some(10u32),
        'b' | 'B' => Some(11u32),
        'c' | 'C' => Some(12u32),
        'd' | 'D' => Some(13u32),
        'e' | 'E' => Some(14u32),
        'f' | 'F' => Some(15u32),
        _ => None,
    }
}

fn hex_val(c: char) -> (r: Option<u32>)
    ensures
        r == spec_hex_val(c),
        r matches Some(v) ==> v < 16,
{
    match c {
        '0' => Some(0),
        '1' => Some(1),
        '2' => Some(2),
        '3' => Some(3),
        '4' => Some(4),
        '5' => Some(5),
        '6' => Some(6),
        '7' => Some(7),
        '8' => Some(8),
        '9' => Some(9),
        'a' | 'A' => Some(10),
        'b' | 'B' => Some(11),
        'c' | 'C' => Some(12),
        'd' | 'D' => Some(13),
        'e' | 'E' => Some(14),
        'f' | 'F' => Some(15),
        _ => None,
    }
}

/// Four hexadecimal digits starting at `i`, if in bounds and in shape.
pub open spec fn spec_read_hex4(s: Seq<char>, i: int) -> Option<u32>
    recommends
        0 <= i,
{
    if i + 4 > s.len() {
        None
    } else {
        match (spec_hex_val(s[i]), spec_hex_val(s[i + 1]), spec_hex_val(s[i + 2]), spec_hex_val(
            s[i + 3],
        )) {
            (Some(d0), Some(d1), Some(d2), Some(d3)) => Some(
                (((d0 * 16 + d1) * 16 + d2) * 16 + d3) as u32,
            ),
            _ => None,
        }
    }
}

/// Reads four hexadecimal digits starting at `i`.
fn read_hex4(s: &str, i: usize) -> (r: Option<u32>)
    requires
        i <= s@.len(),
    ensures
        r == spec_read_hex4(s@, i as int),
        r matches Some(v) ==> v < 0x10000 && i + 4 <= s@.len(),
{
    let n = s.unicode_len();
    if n - i < 4 {
        return None;
    }
    let d0 = match hex_val(s.get_char(i)) {
        Some(d) => d,
        None => {
            return None;
        },
    };
    let d1 = match hex_val(s.get_char(i + 1)) {
        Some(d) => d,
        None => {
            return None;
        },
    };
    let d2 = match hex_val(s.get_char(i + 2)) {
        Some(d) => d,
        None => {
            return None;
        },
    };
    let d3 = match hex_val(s.get_char(i + 3)) {
        Some(d) => d,
        None => {
            return None;
        },
    };
    Some(((d0 * 16 + d1) * 16 + d2) * 16 + d3)
}

/// What reading a string body from `pos` appends to `acc`: plain characters
/// as they stand, escapes decoded, surrogate pairs combined; a closing
/// quote ends the text, and a raw control character, a bad escape or a lone
/// surrogate refuses it.
pub open spec fn spec_str_rest(s: Seq<char>, pos: int, acc: Seq<char>) -> Result<
    (Seq<char>, int),
    ParseError,
>
    decreases s.len() - pos when 0 <= pos <= s.len()
{
    if pos >= s.len() {
        Err(ParseError::Syntax)
    } else {
        let c = s[pos];
        if c == '"' {
            Ok((acc, pos + 1))
        } else if c == '\\' {
            if pos + 1 >= s.len() {
                Err(ParseError::Syntax)
            } else {
                let e = s[pos + 1];
                if e == '"' {
                    spec_str_rest(s, pos + 2, acc.push('"'))
                } else if e == '\\' {
                    spec_str_rest(s, pos + 2, acc.push('\\'))
                } else if e == '/' {
                    spec_str_rest(s, pos + 2, acc.push('/'))
                } else if e == 'n' {
                    spec_str_rest(s, pos + 2, acc.push('\n'))
                } else if e == 't' {
                    spec_str_rest(s, pos + 2, acc.push('\t'))
                } else if e == 'r' {
                    spec_str_rest(s, pos + 2, acc.push('\r'))
                } else if e == 'b' {
                    spec_str_rest(s, pos + 2, acc.push('\u{0008}'))
                } else if e == 'f' {
                    spec_str_rest(s, pos + 2, acc.push('\u{000C}'))
                } else if e == 'u' {
                    match spec_read_hex4(s, pos + 2) {
                        None => Err(ParseError::Syntax),
                        Some(c1) => if 0xD800 <= c1 && c1 < 0xDC00 {
                            if pos + 8 > s.len() || s[pos + 6] != '\\' || s[pos + 7] != 'u' {
                                Err(ParseError::Syntax)
                            } else {
                                match spec_read_hex4(s, pos + 8) {
                                    None => Err(ParseError::Syntax),
                                    Some(c2) => if !(0xDC00 <= c2 && c2 < 0xE000) {
                                        Err(ParseError::Syntax)
                                    } else {
                                        let sc = (0x10000 + (c1 - 0xD800) * 0x400 + (c2
                                            - 0xDC00)) as u32;
                                        spec_str_rest(s, pos + 12, acc.push(sc as char))
                                    },
                                }
                            }
                        } else if 0xDC00 <= c1 && c1 < 0xE000 {
                            Err(ParseError::Syntax)
                        } else {
                            spec_str_rest(s, pos + 6, acc.push(c1 as char))
                        },
                    }
                } else {
                    Err(ParseError::Syntax)
                }
            }
        } else if (c as u32) < 0x20 {
            Err(ParseError::Syntax)
        } else {
            spec_str_rest(s, pos + 1, acc.push(c))
        }
    }
}

/// Reads a string body, exactly as `spec_str_rest` says from an empty
/// accumulation; `i` stands just after the opening quote.
fn parse_string_body(s: &str, i: usize) -> (r: Result<(String, usize), ParseError>)
    requires
        i <= s@.len(),
    ensures
        r matches Ok((st, j)) ==> i < j <= s@.len(),
        match r {
            Ok((st, j)) => spec_str_rest(s@, i as int, Seq::empty()) == Ok::<
                (Seq<char>, int),
                ParseError,
            >((st@, j as int)),
            Err(e) => spec_str_rest(s@, i as int, Seq::empty()) == Err::<
                (Seq<char>, int),
                ParseError,
            >(e),
        },
{
    broadcast use vstd::utf8::char_u32_cast;

    proof {
        reveal_strlit("\"");
        reveal_strlit("\\");
        reveal_strlit("/");
        reveal_strlit("\n");
        reveal_strlit("\t");
        reveal_strlit("\r");
        reveal_strlit("\u{0008}");
        reveal_strlit("\u{000C}");
    }
    let n = s.unicode_len();
    let mut out = String::new();
    let mut seg = i;
    let mut pos = i;
    proof {
        assert(out@ + s@.subrange(i as int, i as int) =~= Seq::<char>::empty());
    }
    while pos < n
        invariant
            n == s@.len(),
            i <= seg <= pos <= n,
            spec_str_rest(s@, i as int, Seq::empty()) == spec_str_rest(
                s@,
                pos as int,
                out@ + s@.subrange(seg as int, pos as int),
            ),
        decreases n - pos,
    {
        let ghost acc0 = out@ + s@.subrange(seg as int, pos as int);
        let c = s.get_char(pos);
        if c == '"' {
            out.append(s.substring_char(seg, pos));
            proof {
                assert(out@ =~= acc0);
            }
            return Ok((out, pos + 1));
        } else if c == '\\' {
            out.append(s.substring_char(seg, pos));
            proof {
                assert(out@ =~= acc0);
            }
            if pos + 1 >= n {
                return Err(ParseError::Syntax);
            }
            let e = s.get_char(pos + 1);
            let mut adv: usize = 2;
            proof {
                reveal_strlit("\"");
                reveal_strlit("\\");
                reveal_strlit("/");
                reveal_strlit("\n");
                reveal_strlit("\t");
                reveal_strlit("\r");
                reveal_strlit("\u{0008}");
                reveal_strlit("\u{000C}");
            }
            if e == '"' {
                out.append("\"");
                proof {
                    assert(out@ =~= acc0.push('"'));
                }
            } else if e == '\\' {
                out.append("\\");
                proof {
                    assert(out@ =~= acc0.push('\\'));
                }
            } else if e == '/' {
                out.append("/");
                proof {
                    assert(out@ =~= acc0.push('/'));
                }
            } else if e == 'n' {
                out.append("\n");
                proof {
                    assert(out@ =~= acc0.push('\n'));
                }
            } else if e == 't' {
                out.append("\t");
                proof {
                    assert(out@ =~= acc0.push('\t'));
                }
            } else if e == 'r' {
                out.append("\r");
                proof {
                    assert(out@ =~= acc0.push('\r'));
                }
            } else if e == 'b' {
                out.append("\u{0008}");
                proof {
                    assert(out@ =~= acc0.push('\u{0008}'));
                }
            } else if e == 'f' {
                out.append("\u{000C}");
                proof {
                    assert(out@ =~= acc0.push('\u{000C}'));
                }
            } else if e == 'u' {
                let c1 = match read_hex4(s, pos + 2) {
                    Some(v) => v,
                    None => {
                        return Err(ParseError::Syntax);
                    },
                };
                let scalar: u32;
                if 0xD800 <= c1 && c1 < 0xDC00 {
                    // a high surrogate must pair with an escaped low one
                    if n - (pos + 6) < 2 || s.get_char(pos + 6) != '\\' || s.get_char(pos + 7)
                        != 'u' {
                        return Err(ParseError::Syntax);
                    }
                    let c2 = match read_hex4(s, pos + 8) {
                        Some(v) => v,
                        None => {
                            return Err(ParseError::Syntax);
                        },
                    };
                    if !(0xDC00 <= c2 && c2 < 0xE000) {
                        return Err(ParseError::Syntax);
                    }
                    scalar = 0x10000 + (c1 - 0xD800) * 0x400 + (c2 - 0xDC00);
                    adv = 12;
                } else if 0xDC00 <= c1 && c1 < 0xE000 {
                    return Err(ParseError::Syntax);
                } else {
                    scalar = c1;
                    adv = 6;
                }
                match char::from_u32(scalar) {
                    Some(ch) => {
                        proof {
                            vstd::utf8::char_u32_cast(ch, scalar);
                        }
                        out.push(ch);
                        proof {
                            assert(out@ =~= acc0.push(scalar as char));
                        }
                    },
                    None => {
                        proof {
                            assert(false);
                        }
                        return Err(ParseError::Syntax);
                    },
                }
            } else {
                return Err(ParseError::Syntax);
            }
            pos += adv;
            seg = pos;
            proof {
                assert(out@ + s@.subrange(seg as int, pos as int) =~= out@);
            }
        } else if (c as u32) < 0x20 {
            return Err(ParseError::Syntax);
        } else {
            proof {
                assert(out@ + s@.subrange(seg as int, pos as int + 1) =~= acc0.push(
                    s@[pos as int],
                ));
            }
            pos += 1;
        }
    }
    Err(ParseError::Syntax)
}

/// The mathematical value of a tree: views in place of machine strings and
/// vectors.
pub enum JVal {
    Null,
    Bool(bool),
    Num { micro: int, integral: bool, big: bool },
    Str(Seq<char>),
    Arr(Seq<JVal>),
    Obj(Seq<(Seq<char>, JVal)>),
}

pub open spec fn json_view(j: Json) -> JVal
    decreases j, 1int,
{
    match j {
        Json::Null => JVal::Null,
        Json::Bool(b) => JVal::Bool(b),
        Json::Num { micro, integral, big } => JVal::Num { micro: micro as int, integral, big },
        Json::Str(st) => JVal::Str(st@),
        Json::Arr(v) => JVal::Arr(seq_view(v@)),
        Json::Obj(v) => JVal::Obj(fields_view(v@)),
    }
}

pub open spec fn seq_view(s: Seq<Json>) -> Seq<JVal>
    decreases s, 0int,
{
    if s.len() == 0 {
        Seq::empty()
    } else {
        seq_view(s.drop_last()).push(json_view(s.last()))
    }
}

pub open spec fn fields_view(s: Seq<(String, Json)>) -> Seq<(Seq<char>, JVal)>
    decreases s, 0int,
{
    if s.len() == 0 {
        Seq::empty()
    } else {
        fields_view(s.drop_last()).push((s.last().0@, json_view(s.last().1)))
    }
}

proof fn lemma_seq_view_push(s: Seq<Json>, x: Json)
    ensures
        seq_view(s.push(x)) == seq_view(s).push(json_view(x)),
{
    assert(s.push(x).drop_last() =~= s);
    assert(s.push(x).last() == x);
}

proof fn lemma_fields_view_push(s: Seq<(String, Json)>, key: String, x: Json)
    ensures
        fields_view(s.push((key, x))) == fields_view(s).push((key@, json_view(x))),
{
    assert(s.push((key, x)).drop_last() =~= s);
    assert(s.push((key, x)).last() == (key, x));
}

/// What reading one value starting at `i` yields, with `depth` levels of
/// nesting still allowed. The bounds checks that can never fail are kept
/// explicit so the definition plainly terminates.
pub open spec fn spec_parse_value(s: Seq<char>, i: int, depth: int) -> Result<
    (JVal, int),
    ParseError,
>
    decreases s.len() - i, 0int when 0 <= i <= s.len()
{
    if i >= s.len() {
        Err(ParseError::Syntax)
    } else {
        let c = s[i];
        if c == 'n' {
            if i + 4 <= s.len() && s[i + 1] == 'u' && s[i + 2] == 'l' && s[i + 3] == 'l' {
                Ok((JVal::Null, i + 4))
            } else {
                Err(ParseError::Syntax)
            }
        } else if c == 't' {
            if i + 4 <= s.len() && s[i + 1] == 'r' && s[i + 2] == 'u' && s[i + 3] == 'e' {
                Ok((JVal::Bool(true), i + 4))
            } else {
                Err(ParseError::Syntax)
            }
        } else if c == 'f' {
            if i + 5 <= s.len() && s[i + 1] == 'a' && s[i + 2] == 'l' && s[i + 3] == 's' && s[i + 4]
                == 'e' {
                Ok((JVal::Bool(false), i + 5))
            } else {
                Err(ParseError::Syntax)
            }
        } else if c == '"' {
            match spec_str_rest(s, i + 1, Seq::empty()) {
                Ok((sv, j)) => Ok((JVal::Str(sv), j)),
                Err(e) => Err(e),
            }
        } else if c == '-' || spec_digit_val(c) is Some {
            match spec_parse_number(s, i) {
                Ok(((m, integral, big), j)) => Ok((JVal::Num { micro: m, integral, big }, j)),
                Err(e) => Err(e),
            }
        } else if c == '[' {
            if depth <= 0 {
                Err(ParseError::Depth)
            } else {
                let pos = spec_skip_ws(s, i + 1);
                if !(i < pos <= s.len()) {
                    Err(ParseError::Syntax)
                } else if pos < s.len() && s[pos] == ']' {
                    Ok((JVal::Arr(Seq::empty()), pos + 1))
                } else {
                    spec_arr_rest(s, pos, depth, Seq::empty())
                }
            }
        } else if c == '{' {
            if depth <= 0 {
                Err(ParseError::Depth)
            } else {
                let pos = spec_skip_ws(s, i + 1);
                if !(i < pos <= s.len()) {
                    Err(ParseError::Syntax)
                } else if pos < s.len() && s[pos] == '}' {
                    Ok((JVal::Obj(Seq::empty()), pos + 1))
                } else {
                    spec_obj_rest(s, pos, depth, Seq::empty())
                }
            }
        } else {
            Err(ParseError::Syntax)
        }
    }
}

/// The remaining elements of a list being read, the next starting at `pos`.
pub open spec fn spec_arr_rest(s: Seq<char>, pos: int, depth: int, elems: Seq<JVal>) -> Result<
    (JVal, int),
    ParseError,
>
    decreases s.len() - pos, 1int when 0 <= pos <= s.len()
{
    match spec_parse_value(s, pos, depth - 1) {
        Err(e) => Err(e),
        Ok((v, j)) => if !(pos < j <= s.len()) {
            Err(ParseError::Syntax)
        } else {
            let pos2 = spec_skip_ws(s, j);
            if !(j <= pos2 <= s.len()) {
                Err(ParseError::Syntax)
            } else if pos2 >= s.len() {
                Err(ParseError::Syntax)
            } else if s[pos2] == ']' {
                Ok((JVal::Arr(elems.push(v)), pos2 + 1))
            } else if s[pos2] == ',' {
                let pos3 = spec_skip_ws(s, pos2 + 1);
                if !(pos2 < pos3 <= s.len()) {
                    Err(ParseError::Syntax)
                } else {
                    spec_arr_rest(s, pos3, depth, elems.push(v))
                }
            } else {
                Err(ParseError::Syntax)
            }
        },
    }
}

/// The remaining fields of an object being read, the next key expected at
/// `pos`.
pub open spec fn spec_obj_rest(
    s: Seq<char>,
    pos: int,
    depth: int,
    fields: Seq<(Seq<char>, JVal)>,
) -> Result<(JVal, int), ParseError>
    decreases s.len() - pos, 1int when 0 <= pos <= s.len()
{
    if pos >= s.len() || s[pos] != '"' {
        Err(ParseError::Syntax)
    } else {
        match spec_str_rest(s, pos + 1, Seq::empty()) {
            Err(e) => Err(e),
            Ok((key, j1)) => if !(pos < j1 <= s.len()) {
                Err(ParseError::Syntax)
            } else {
                let j2 = spec_skip_ws(s, j1);
                if !(j1 <= j2 <= s.len()) {
                    Err(ParseError::Syntax)
                } else if j2 >= s.len() || s[j2] != ':' {
                    Err(ParseError::Syntax)
                } else {
                    let j3 = spec_skip_ws(s, j2 + 1);
                    if !(j2 < j3 <= s.len()) {
                        Err(ParseError::Syntax)
                    } else {
                        match spec_parse_value(s, j3, depth - 1) {
                            Err(e) => Err(e),
                            Ok((v, j4)) => if !(j3 < j4 <= s.len()) {
                                Err(ParseError::Syntax)
                            } else {
                                let pos2 = spec_skip_ws(s, j4);
                                if !(j4 <= pos2 <= s.len()) {
                                    Err(ParseError::Syntax)
                                } else if pos2 >= s.len() {
                                    Err(ParseError::Syntax)
                                } else if s[pos2] == '}' {
                                    Ok((JVal::Obj(fields.push((key, v))), pos2 + 1))
                                } else if s[pos2] == ',' {
                                    let pos3 = spec_skip_ws(s, pos2 + 1);
                                    if !(pos2 < pos3 <= s.len()) {
                                        Err(ParseError::Syntax)
                                    } else {
                                        spec_obj_rest(s, pos3, depth, fields.push((key, v)))
                                    }
                                } else {
                                    Err(ParseError::Syntax)
                                }
                            },
                        }
                    }
                }
            },
        }
    }
}

/// Checks for three given characters starting at `i`.
fn expect_chars(s: &str, i: usize, a: char, b: char, c: char) -> (r: bool)
    requires
        i <= s@.len(),
    ensures
        r == (i + 3 <= s@.len() && s@[i as int] == a && s@[i as int + 1] == b && s@[i as int + 2]
            == c),
{
    let n = s.unicode_len();
    if n - i < 3 {
        return false;
    }
    s.get_char(i) == a && s.get_char(i + 1) == b && s.get_char(i + 2) == c
}

/// Reads one value starting at `i`, exactly as `spec_parse_value` says;
/// `depth` bounds the nesting still allowed.
fn parse_value(s: &str, i: usize, depth: u32) -> (r: Result<(Json, usize), ParseError>)
    requires
        i <= s@.len(),
    ensures
        r matches Ok((v, j)) ==> i < j <= s@.len() && json_bounded(v),
        match r {
            Ok((v, j)) => spec_parse_value(s@, i as int, depth as int) == Ok::<
                (JVal, int),
                ParseError,
            >((json_view(v), j as int)),
            Err(e) => spec_parse_value(s@, i as int, depth as int) == Err::<
                (JVal, int),
                ParseError,
            >(e),
        },
    decreases s@.len() - i,
{
    let n = s.unicode_len();
    if i >= n {
        return Err(ParseError::Syntax);
    }
    let c = s.get_char(i);
    if c == 'n' {
        if expect_chars(s, i + 1, 'u', 'l', 'l') {
            Ok((Json::Null, i + 4))
        } else {
            Err(ParseError::Syntax)
        }
    } else if c == 't' {
        if expect_chars(s, i + 1, 'r', 'u', 'e') {
            Ok((Json::Bool(true), i + 4))
        } else {
            Err(ParseError::Syntax)
        }
    } else if c == 'f' {
        if n - i >= 5 && expect_chars(s, i + 1, 'a', 'l', 's') && s.get_char(i + 4) == 'e' {
            Ok((Json::Bool(false), i + 5))
        } else {
            Err(ParseError::Syntax)
        }
    } else if c == '"' {
        match parse_string_body(s, i + 1) {
            Ok((st, j)) => Ok((Json::Str(st), j)),
            Err(e) => Err(e),
        }
    } else if c == '-' || digit_val(c).is_some() {
        match parse_number(s, i) {
            Ok(((m, integral, big), j)) => Ok((Json::Num { micro: m, integral, big }, j)),
            Err(e) => Err(e),
        }
    } else if c == '[' {
        if depth == 0 {
            return Err(ParseError::Depth);
        }
        let mut elems: Vec<Json> = Vec::new();
        let mut pos = skip_ws(s, i + 1);
        if pos < n && s.get_char(pos) == ']' {
            proof {
                assert(seq_view(elems@) =~= Seq::<JVal>::empty());
            }
            return Ok((Json::Arr(elems), pos + 1));
        }
        proof {
            assert(seq_view(elems@) =~= Seq::<JVal>::empty());
        }
        loop
            invariant
                n == s@.len(),
                i < pos <= n,
                depth >= 1,
                seq_bounded(elems@),
                spec_parse_value(s@, i as int, depth as int) == spec_arr_rest(
                    s@,
                    pos as int,
                    depth as int,
                    seq_view(elems@),
                ),
            decreases n - pos,
        {
            let (v, j) = match parse_value(s, pos, depth - 1) {
                Ok(x) => x,
                Err(e) => {
                    return Err(e);
                },
            };
            proof {
                lemma_seq_bounded_push(elems@, v);
                lemma_seq_view_push(elems@, v);
            }
            elems.push(v);
            pos = skip_ws(s, j);
            if pos >= n {
                return Err(ParseError::Syntax);
            }
            let t = s.get_char(pos);
            if t == ']' {
                return Ok((Json::Arr(elems), pos + 1));
            } else if t == ',' {
                pos = skip_ws(s, pos + 1);
            } else {
                return Err(ParseError::Syntax);
            }
        }
    } else if c == '{' {
        if depth == 0 {
            return Err(ParseError::Depth);
        }
        let mut fields: Vec<(String, Json)> = Vec::new();
        let mut pos = skip_ws(s, i + 1);
        if pos < n && s.get_char(pos) == '}' {
            proof {
                assert(fields_view(fields@) =~= Seq::<(Seq<char>, JVal)>::empty());
            }
            return Ok((Json::Obj(fields), pos + 1));
        }
        proof {
            assert(fields_view(fields@) =~= Seq::<(Seq<char>, JVal)>::empty());
        }
        loop
            invariant
                n == s@.len(),
                i < pos <= n,
                depth >= 1,
                fields_bounded(fields@),
                spec_parse_value(s@, i as int, depth as int) == spec_obj_rest(
                    s@,
                    pos as int,
                    depth as int,
                    fields_view(fields@),
                ),
            decreases n - pos,
        {
            if pos >= n || s.get_char(pos) != '"' {
                return Err(ParseError::Syntax);
            }
            let (key, j1) = match parse_string_body(s, pos + 1) {
                Ok(x) => x,
                Err(e) => {
                    return Err(e);
                },
            };
            let j2 = skip_ws(s, j1);
            if j2 >= n || s.get_char(j2) != ':' {
                return Err(ParseError::Syntax);
            }
            let j3 = skip_ws(s, j2 + 1);
            let (v, j4) = match parse_value(s, j3, depth - 1) {
                Ok(x) => x,
                Err(e) => {
                    return Err(e);
                },
            };
            proof {
                lemma_fields_bounded_push(fields@, key, v);
                lemma_fields_view_push(fields@, key, v);
            }
            fields.push((key, v));
            pos = skip_ws(s, j4);
            if pos >= n {
                return Err(ParseError::Syntax);
            }
            let t = s.get_char(pos);
            if t == '}' {
                return Ok((Json::Obj(fields), pos + 1));
            } else if t == ',' {
                pos = skip_ws(s, pos + 1);
            } else {
                return Err(ParseError::Syntax);
            }
        }
    } else {
        Err(ParseError::Syntax)
    }
}

/// What reading one whole document yields: the single value between any
/// leading and trailing whitespace, or the error met first.
pub open spec fn spec_parse_json(s: Seq<char>) -> Result<JVal, ParseError> {
    let start = spec_skip_ws(s, 0);
    match spec_parse_value(s, start, MAX_DEPTH as int) {
        Err(e) => Err(e),
        Ok((v, j)) => if !(0 <= j <= s.len()) {
            Err(ParseError::Syntax)
        } else if spec_skip_ws(s, j) < s.len() {
            Err(ParseError::Syntax)
        } else {
            Ok(v)
        },
    }
}

/// Reads one whole document, exactly as `spec_parse_json` says; trailing
/// text other than whitespace is refused.
pub fn parse_json(s: &str) -> (r: Result<Json, ParseError>)
    ensures
        r matches Ok(v) ==> json_bounded(v),
        match r {
            Ok(v) => spec_parse_json(s@) == Ok::<JVal, ParseError>(json_view(v)),
            Err(e) => spec_parse_json(s@) == Err::<JVal, ParseError>(e),
        },
{
    let n = s.unicode_len();
    let start = skip_ws(s, 0);
    let (v, j) = match parse_value(s, start, MAX_DEPTH) {
        Ok(x) => x,
        Err(e) => {
            return Err(e);
        },
    };
    let end = skip_ws(s, j);
    if end < n {
        return Err(ParseError::Syntax);
    }
    Ok(v)
}

} // verus!
