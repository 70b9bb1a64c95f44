//! Reading numbers and booleans from text, as `str::parse` does.
use vstd::prelude::*;

use crate::chars::{chars_of, push_char, str_eq};

verus! {

/// The value of an ASCII decimal digit.
pub open spec fn digit_value(c: char) -> Option<nat> {
    if '0' <= c && c <= '9' {
        Some((c as u32 - '0' as u32) as nat)
    } else {
        None
    }
}

/// The value of a non-empty run of ASCII decimal digits.
pub open spec fn decimal_value(s: Seq<char>) -> Option<nat>
    decreases s.len(),
{
    if s.len() == 0 {
        None
    } else {
        match digit_value(s.last()) {
            None => None,
            Some(d) => if s.len() == 1 {
                Some(d)
            } else {
                match decimal_value(s.drop_last()) {
                    Some(v) => Some(v * 10 + d),
                    None => None,
                }
            },
        }
    }
}

/// The value of an unsigned integer literal: an optional `+` and at least
/// one decimal digit, nothing else (no whitespace).
pub open spec fn unsigned_value(s: Seq<char>) -> Option<nat> {
    if s.len() > 0 && s[0] == '+' {
        decimal_value(s.drop_first())
    } else {
        decimal_value(s)
    }
}

/// What `str::parse::<T>` gives for an unsigned type whose largest value is
/// `max`.
pub open spec fn parsed_unsigned(s: Seq<char>, max: nat) -> Option<nat> {
    match unsigned_value(s) {
        Some(v) if v <= max => Some(v),
        _ => None,
    }
}

/// What `str::parse::<bool>` gives: `true` and `false` exactly.
pub open spec fn parsed_bool(s: Seq<char>) -> Option<bool> {
    if s == "true"@ {
        Some(true)
    } else if s == "false"@ {
        Some(false)
    } else {
        None
    }
}

/// A digit string has a value exactly when each of its non-empty prefixes
/// has one, and no prefix's value exceeds it.
proof fn lemma_prefix_value(s: Seq<char>, j: int)
    requires
        1 <= j <= s.len(),
        decimal_value(s) is Some,
    ensures
        decimal_value(s.take(j)) is Some,
        decimal_value(s.take(j))->0 <= decimal_value(s)->0,
    decreases s.len(),
{
    if j < s.len() {
        assert(s.len() > 1);
        lemma_prefix_value(s.drop_last(), j);
        assert(s.drop_last().take(j) =~= s.take(j));
    } else {
        assert(s.take(j) =~= s);
    }
}

/// What `str::parse` gives for an unsigned type whose largest value is
/// `max`, computed digit by digit.
fn parse_unsigned(s: &str, max: u64) -> (r: Option<u64>)
    ensures
        r == (match parsed_unsigned(s@, max as nat) {
            Some(v) => Some(v as u64),
            None => None,
        }),
{
    let v = chars_of(s);
    let start: usize = if v.len() > 0 && v[0] == '+' {
        1
    } else {
        0
    };
    let ghost t = if start == 1 {
        s@.drop_first()
    } else {
        s@
    };
    assert(t =~= s@.subrange(start as int, s@.len() as int));
    if start >= v.len() {
        assert(t.len() == 0);
        return None;
    }
    let mut acc: u64 = 0;
    let mut j: usize = start;
    while j < v.len()
        invariant
            start < v@.len(),
            v@ == s@,
            t == s@.subrange(start as int, s@.len() as int),
            start <= j <= v@.len(),
            unsigned_value(s@) == decimal_value(t),
            j == start ==> acc == 0,
            j > start ==> decimal_value(t.take(j - start)) == Some(acc as nat),
            acc <= max,
        decreases v@.len() - j,
    {
        let c = v[j];
        assert(t.take(j + 1 - start).last() == c);
        assert(t.take(j + 1 - start).drop_last() =~= t.take(j - start));
        if !('0' <= c && c <= '9') {
            proof {
                assert(digit_value(c) is None);
                assert(decimal_value(t.take(j + 1 - start)) is None);
                if decimal_value(t) is Some {
                    lemma_prefix_value(t, j + 1 - start);
                }
            }
            return None;
        }
        let d: u64 = (c as u32 - '0' as u32) as u64;
        if d > max || acc > (max - d) / 10 {
            proof {
                assert(digit_value(c) == Some(d as nat));
                assert(decimal_value(t.take(j + 1 - start)) == Some((acc * 10 + d) as nat));
                if d <= max {
                    assert(acc * 10 + d > max) by (nonlinear_arith)
                        requires
                            acc > (max - d) / 10,
                            d <= max,
                    ;
                }
                if decimal_value(t) is Some {
                    lemma_prefix_value(t, j + 1 - start);
                }
            }
            return None;
        }
        acc = acc * 10 + d;
        j += 1;
    }
    assert(t.take(v@.len() - start) =~= t);
    Some(acc)
}

/// What `str::parse::<u16>` gives: an optional `+` followed by decimal
/// digits whose value fits in `u16`, and nothing otherwise.
pub(crate) fn parse_u16(s: &str) -> (r: Option<u16>)
    ensures
        r == (match parsed_unsigned(s@, u16::MAX as nat) {
            Some(v) => Some(v as u16),
            None => None,
        }),
{
    match parse_unsigned(s, 65535) {
        Some(n) => Some(n as u16),
        None => None,
    }
}

/// What `str::parse::<u32>` gives: an optional `+` followed by decimal
/// digits whose value fits in `u32`, and nothing otherwise.
pub(crate) fn parse_u32(s: &str) -> (r: Option<u32>)
    ensures
        r == (match parsed_unsigned(s@, u32::MAX as nat) {
            Some(v) => Some(v as u32),
            None => None,
        }),
{
    match parse_unsigned(s, 4294967295) {
        Some(n) => Some(n as u32),
        None => None,
    }
}

/// What `str::parse::<u64>` gives: an optional `+` followed by decimal
/// digits whose value fits in `u64`, and nothing otherwise.
pub(crate) fn parse_u64(s: &str) -> (r: Option<u64>)
    ensures
        r == (match parsed_unsigned(s@, u64::MAX as nat) {
            Some(v) => Some(v as u64),
            None => None,
        }),
{
    parse_unsigned(s, u64::MAX)
}

/// What `str::parse::<bool>` gives: `true` and `false` exactly.
pub(crate) fn parse_bool(s: &str) -> (r: Option<bool>)
    ensures
        r == parsed_bool(s@),
{
    if str_eq(s, "true") {
        Some(true)
    } else if str_eq(s, "false") {
        Some(false)
    } else {
        None
    }
}

// ── Rendering ───────────────────────────────────────────────────────

/// The ASCII digit of a value below ten.
pub open spec fn digit_char(d: nat) -> char {
    (('0' as u32) + d) as char
}

/// The decimal text of a number, without sign or leading zeros, as
/// `Display` writes an unsigned integer.
pub open spec fn decimal_text(n: nat) -> Seq<char>
    decreases n,
{
    if n < 10 {
        seq![digit_char(n)]
    } else {
        decimal_text(n / 10).push(digit_char(n % 10))
    }
}

/// Append the decimal text of `n` to `out`.
pub fn push_decimal(out: &mut String, n: u64)
    ensures
        final(out)@ == old(out)@ + decimal_text(n as nat),
    decreases n,
{
    if n >= 10 {
        push_decimal(out, n / 10);
    }
    let d: u8 = (n % 10) as u8;
    let c: char = (48u8 + d) as char;
    assert(c == digit_char((n % 10) as nat));
    push_char(out, c);
}

} // verus!
