//! Option values written as text, as adapters receive them in requests.
use vstd::prelude::*;
use crate::protocol::{AdapterError, AdapterErrorKind};
use crate::text::str_eq;

verus! {

pub open spec fn is_digit(c: char) -> bool {
    '0' <= c && c <= '9'
}

pub open spec fn all_digits(d: Seq<char>) -> bool {
    forall|i: int| 0 <= i < d.len() ==> is_digit(d[i])
}

/// The value of the decimal digits `d`.
pub open spec fn digits_value(d: Seq<char>) -> nat
    decreases d.len(),
{
    if d.len() == 0 {
        0
    } else {
        digits_value(d.drop_last()) * 10 + (d.last() as nat - 48) as nat
    }
}

/// The unsigned integer that `s` spells: an optional `+`, then one or more
/// decimal digits.
pub open spec fn unsigned_text(s: Seq<char>) -> Option<nat> {
    let d = if s.len() > 0 && s[0] == '+' {
        s.drop_first()
    } else {
        s
    };
    if d.len() == 0 || !all_digits(d) {
        None
    } else {
        Some(digits_value(d))
    }
}

/// The unsigned integer `s` spells, when it is at most `max`.
pub open spec fn unsigned_at_most(s: Seq<char>, max: int) -> Option<u64> {
    match unsigned_text(s) {
        Some(v) => if v <= max {
            Some(v as u64)
        } else {
            None
        },
        None => None,
    }
}

proof fn lemma_digits_grow(d: Seq<char>, i: int)
    requires
        0 <= i <= d.len(),
        forall|j: int| 0 <= j < d.len() ==> is_digit(d[j]),
    ensures
        digits_value(d.take(i)) <= digits_value(d),
    decreases d.len() - i,
{
    if i < d.len() {
        lemma_digits_grow(d, i + 1);
        assert(d.take(i + 1).drop_last() =~= d.take(i));
    } else {
        assert(d.take(i) =~= d);
    }
}

/// Parses an unsigned integer no larger than `max`, as std's `parse` does for
/// an unsigned type whose largest value is `max`.
pub fn parse_unsigned(s: &str, max: u64) -> (r: Option<u64>)
    ensures
        r == unsigned_at_most(s@, max as int),
{
    let n = s.unicode_len();
    let mut start: usize = 0;
    if n > 0 && s.get_char(0) == '+' {
        start = 1;
    }
    let ghost d = if s@.len() > 0 && s@[0] == '+' {
        s@.drop_first()
    } else {
        s@
    };
    assert(d =~= s@.subrange(start as int, n as int));
    if start == n {
        return None;
    }
    let mut value: u64 = 0;
    let mut i: usize = start;
    while i < n
        invariant
            start <= i <= n,
            n == s@.len(),
            d == s@.subrange(start as int, n as int),
            d == (if s@.len() > 0 && s@[0] == '+' {
                s@.drop_first()
            } else {
                s@
            }),
            d.len() > 0,
            forall|j: int| 0 <= j < i - start ==> is_digit(d[j]),
            value as nat == digits_value(d.take(i - start)),
            value <= max,
        decreases n - i,
    {
        let c = s.get_char(i);
        assert(c == d[i - start]);
        if !('0' <= c && c <= '9') {
            assert(!is_digit(d[i - start]));
            assert(!all_digits(d));
            return None;
        }
        let digit = (c as u32 - 48) as u64;
        assert(d.take(i - start + 1).drop_last() =~= d.take(i - start));
        let next = match value.checked_mul(10) {
            Some(v) => v.checked_add(digit),
            None => None,
        };
        match next {
            Some(v) if v <= max => {
                value = v;
            },
            _ => {
                proof {
                    assert(digits_value(d.take(i - start + 1)) > max);
                    if all_digits(d) {
                        lemma_digits_grow(d, i - start + 1);
                    }
                }
                return None;
            },
        }
        i = i + 1;
    }
    assert(d.take(i - start) =~= d);
    Some(value)
}

/// `true` or `false`, spelled out.
pub open spec fn flag_text(s: Seq<char>) -> Option<bool> {
    if s == "true"@ {
        Some(true)
    } else if s == "false"@ {
        Some(false)
    } else {
        None
    }
}

pub fn parse_flag(s: &str) -> (r: Option<bool>)
    ensures
        r == flag_text(s@),
{
    if str_eq(s, "true") {
        Some(true)
    } else if str_eq(s, "false") {
        Some(false)
    } else {
        None
    }
}

/// An `InvalidOptions` error with `message`.
pub fn invalid_options(message: &str) -> (e: AdapterError)
    ensures
        e.kind == AdapterErrorKind::InvalidOptions,
        e.message@ == message@,
{
    AdapterError::new(AdapterErrorKind::InvalidOptions, crate::text::note(message))
}

/// The message for an option name no capability knows.
pub open spec fn unknown_option(name: Seq<char>) -> Seq<char> {
    "unknown option "@ + name
}

pub fn unknown_option_error(name: &str) -> (e: AdapterError)
    ensures
        e.kind == AdapterErrorKind::InvalidOptions,
        e.message@ == unknown_option(name@),
{
    let mut s = String::from_str("unknown option ");
    s.append(name);
    AdapterError::new(AdapterErrorKind::InvalidOptions, s)
}

} // verus!
