//! Settings read from the environment: what a variable's value, where it is
//! set, makes of a default.

use vstd::prelude::*;

verus! {

/// Whether a character is a decimal digit.
pub open spec fn is_digit(c: char) -> bool {
    '0' <= c && c <= '9'
}

/// Whether a text is digits throughout.
pub open spec fn all_digits(s: Seq<char>) -> bool {
    forall|i: int| 0 <= i < s.len() ==> is_digit(#[trigger] s[i])
}

/// The number that a string of digits spells.
pub open spec fn digits_value(s: Seq<char>) -> nat
    decreases s.len(),
{
    if s.len() == 0 {
        0
    } else {
        digits_value(s.drop_last()) * 10 + (s.last() as nat - 48) as nat
    }
}

/// The number that a string spells: an optional plus sign, then one digit or
/// more, and nothing else.
pub open spec fn decimal_number(s: Seq<char>) -> Option<nat> {
    let digits = if s.len() > 0 && s[0] == '+' {
        s.skip(1)
    } else {
        s
    };
    if digits.len() > 0 && all_digits(digits) {
        Some(digits_value(digits))
    } else {
        None
    }
}

/// A parsed number, where it is not past `max`.
pub open spec fn number_up_to(s: Seq<char>, max: nat) -> Option<nat> {
    match decimal_number(s) {
        Some(n) => if n <= max {
            Some(n)
        } else {
            None
        },
        None => None,
    }
}

/// Parses a number with `str::parse::<u64>` of std: an optional plus sign and
/// digits, nothing where the text is anything else or the number does not fit.
#[verifier::external_body]
fn parse_u64(s: &str) -> (r: Option<u64>)
    ensures
        match number_up_to(s@, u64::MAX as nat) {
            Some(n) => r == Some(n as u64),
            None => r is None,
        },
{
    s.parse::<u64>().ok()
}

/// Parses a number with `str::parse::<usize>` of std: an optional plus sign and
/// digits, nothing where the text is anything else or the number does not fit.
#[verifier::external_body]
fn parse_usize(s: &str) -> (r: Option<usize>)
    ensures
        match number_up_to(s@, usize::MAX as nat) {
            Some(n) => r == Some(n as usize),
            None => r is None,
        },
{
    s.parse::<usize>().ok()
}

/// The text of a variable.
pub open spec fn text_of(v: Option<&str>) -> Option<Seq<char>> {
    match v {
        Some(s) => Some(s@),
        None => None,
    }
}

/// The number that a variable holds, where it is set to one up to `max`.
pub open spec fn setting(v: Option<Seq<char>>, max: nat) -> Option<nat> {
    match v {
        Some(s) => number_up_to(s, max),
        None => None,
    }
}

/// A positive setting, or the default.
pub open spec fn positive_or(v: Option<Seq<char>>, max: nat, default: nat) -> nat {
    match setting(v, max) {
        Some(n) => if n > 0 {
            n
        } else {
            default
        },
        None => default,
    }
}

/// A setting, or the default.
pub open spec fn number_or(v: Option<Seq<char>>, max: nat, default: nat) -> nat {
    match setting(v, max) {
        Some(n) => n,
        None => default,
    }
}

/// Reads a positive setting; an unset, unreadable or zero one is the default.
pub fn positive_usize_or(v: Option<&str>, default: usize) -> (r: usize)
    ensures
        r == positive_or(text_of(v), usize::MAX as nat, default as nat),
{
    match v {
        Some(s) => match parse_usize(s) {
            Some(n) => if n > 0 {
                n
            } else {
                default
            },
            None => default,
        },
        None => default,
    }
}

/// Reads a positive setting; an unset, unreadable or zero one is the default.
pub fn positive_u64_or(v: Option<&str>, default: u64) -> (r: u64)
    ensures
        r == positive_or(text_of(v), u64::MAX as nat, default as nat),
{
    match v {
        Some(s) => match parse_u64(s) {
            Some(n) => if n > 0 {
                n
            } else {
                default
            },
            None => default,
        },
        None => default,
    }
}

/// Reads a setting; an unset or unreadable one is the default.
pub fn usize_or(v: Option<&str>, default: usize) -> (r: usize)
    ensures
        r == number_or(text_of(v), usize::MAX as nat, default as nat),
{
    match v {
        Some(s) => match parse_usize(s) {
            Some(n) => n,
            None => default,
        },
        None => default,
    }
}

} // verus!
