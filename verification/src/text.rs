//! Human-readable diagnostics built from verified decimal formatting.
use vstd::prelude::*;
use vstd::string::StrSliceExecFns;

verus! {

/// The character of a decimal digit.
pub open spec fn digit_char(d: int) -> char {
    (48 + d) as char
}

/// The decimal representation of `v`, most significant digit first.
pub open spec fn decimal(v: nat) -> Seq<char>
    decreases v,
{
    if v < 10 {
        seq![digit_char(v as int)]
    } else {
        decimal(v / 10) + seq![digit_char((v % 10) as int)]
    }
}

fn push_digit(s: &mut String, d: u64)
    requires
        d < 10,
    ensures
        final(s)@ == old(s)@ + seq![digit_char(d as int)],
{
    if d == 0 {
        proof {
            reveal_strlit("0");
        }
        s.append("0");
    } else if d == 1 {
        proof {
            reveal_strlit("1");
        }
        s.append("1");
    } else if d == 2 {
        proof {
            reveal_strlit("2");
        }
        s.append("2");
    } else if d == 3 {
        proof {
            reveal_strlit("3");
        }
        s.append("3");
    } else if d == 4 {
        proof {
            reveal_strlit("4");
        }
        s.append("4");
    } else if d == 5 {
        proof {
            reveal_strlit("5");
        }
        s.append("5");
    } else if d == 6 {
        proof {
            reveal_strlit("6");
        }
        s.append("6");
    } else if d == 7 {
        proof {
            reveal_strlit("7");
        }
        s.append("7");
    } else if d == 8 {
        proof {
            reveal_strlit("8");
        }
        s.append("8");
    } else {
        proof {
            reveal_strlit("9");
        }
        s.append("9");
    }
}

/// Appends the decimal representation of `v`.
pub fn push_decimal(s: &mut String, v: u64)
    ensures
        final(s)@ == old(s)@ + decimal(v as nat),
    decreases v,
{
    if v >= 10 {
        push_decimal(s, v / 10);
        push_digit(s, v % 10);
        assert(final(s)@ =~= old(s)@ + decimal(v as nat));
    } else {
        push_digit(s, v);
    }
}

/// `prefix`, the decimal form of `v`, then `suffix`.
pub fn message(prefix: &str, v: u64, suffix: &str) -> (r: String)
    ensures
        r@ == prefix@ + decimal(v as nat) + suffix@,
{
    let mut s = String::from_str(prefix);
    push_decimal(&mut s, v);
    s.append(suffix);
    s
}

/// Appends the character `c` (std's `String::push`).
#[verifier::external_body]
pub fn push_char(s: &mut String, c: char)
    ensures
        final(s)@ == old(s)@.push(c),
{
    s.push(c);
}

/// Whether two strings are equal, compared character by character.
pub fn str_eq(a: &str, b: &str) -> (r: bool)
    ensures
        r == (a@ == b@),
{
    let n = a.unicode_len();
    if n != b.unicode_len() {
        return false;
    }
    let mut i: usize = 0;
    while i < n
        invariant
            i <= n,
            n == a@.len(),
            n == b@.len(),
            forall|j: int| 0 <= j < i ==> a@[j] == b@[j],
        decreases n - i,
    {
        if a.get_char(i) != b.get_char(i) {
            return false;
        }
        i = i + 1;
    }
    assert(a@ =~= b@);
    true
}

/// The ASCII decimal digits of `v`, as bytes.
pub open spec fn decimal_bytes(v: nat) -> Seq<u8>
    decreases v,
{
    if v < 10 {
        seq![(0x30 + v) as u8]
    } else {
        decimal_bytes(v / 10) + seq![(0x30 + v % 10) as u8]
    }
}

/// Appends the ASCII decimal digits of `v`.
pub fn push_decimal_bytes(out: &mut Vec<u8>, v: u64)
    ensures
        final(out)@ == old(out)@ + decimal_bytes(v as nat),
    decreases v,
{
    if v >= 10 {
        push_decimal_bytes(out, v / 10);
        out.push((0x30 + v % 10) as u8);
        assert(final(out)@ =~= old(out)@ + decimal_bytes(v as nat));
    } else {
        out.push((0x30 + v) as u8);
        assert(final(out)@ =~= old(out)@ + decimal_bytes(v as nat));
    }
}

/// A message without a number.
pub fn note(text: &str) -> (r: String)
    ensures
        r@ == text@,
{
    String::from_str(text)
}

} // verus!
