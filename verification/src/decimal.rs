//! Unsigned decimal numbers in text.
//!
//! A number is written as one or more decimal digits, which a single `+` may
//! precede. Nothing else is accepted: no sign but `+`, no white space, no
//! digit separators. Leading zeros are allowed.

use vstd::prelude::*;

verus! {

/// The ASCII code of `+`.
pub const PLUS: u8 = 43;

/// The ASCII code of `0`.
pub const ZERO: u8 = 48;

/// The ASCII code of `9`.
pub const NINE: u8 = 57;

/// The value of a decimal digit.
pub open spec fn digit(c: char) -> Option<nat> {
    if '0' <= c && c <= '9' {
        Some((c as u32 - '0' as u32) as nat)
    } else {
        None
    }
}

/// The value of a sequence of decimal digits, the most significant first;
/// `None` if one of the characters is not a digit.
pub open spec fn digits(s: Seq<char>) -> Option<nat>
    decreases s.len(),
{
    if s.len() == 0 {
        Some(0)
    } else {
        match (digits(s.drop_last()), digit(s.last())) {
            (Some(high), Some(low)) => Some(high * 10 + low),
            _ => None,
        }
    }
}

/// The digits of a number: the text without the `+` that may precede them.
pub open spec fn unsigned_part(s: Seq<char>) -> Seq<char> {
    if s.len() > 0 && s[0] == '+' {
        s.skip(1)
    } else {
        s
    }
}

/// The number below 65536 that `s` is the decimal notation of, if there is
/// one.
pub open spec fn decimal_u16(s: Seq<char>) -> Option<u16> {
    let body = unsigned_part(s);
    if body.len() == 0 {
        None
    } else {
        match digits(body) {
            Some(value) => if value <= u16::MAX {
                Some(value as u16)
            } else {
                None
            },
            None => None,
        }
    }
}

/// A prefix of a sequence of digits is a sequence of digits, and its value
/// is not greater.
pub proof fn lemma_digits_prefix(s: Seq<char>, k: int)
    requires
        0 <= k <= s.len(),
        digits(s) is Some,
    ensures
        digits(s.take(k)) is Some,
        digits(s.take(k))->0 <= digits(s)->0,
    decreases s.len(),
{
    if k == s.len() {
        assert(s.take(k) =~= s);
    } else {
        lemma_digits_prefix(s.drop_last(), k);
        assert(s.drop_last().take(k) =~= s.take(k));
    }
}

/// Every character of a sequence of digits is a digit.
pub proof fn lemma_digits_all(s: Seq<char>, i: int)
    requires
        0 <= i < s.len(),
        digits(s) is Some,
    ensures
        digit(s[i]) is Some,
{
    lemma_digits_prefix(s, i + 1);
    assert(s.take(i + 1).last() == s[i]);
}

/// Reads an unsigned decimal number below 65536.
pub fn parse_u16(s: &str) -> (r: Option<u16>)
    ensures
        r == decimal_u16(s@),
{
    let ghost body = unsigned_part(s@);
    if !s.is_ascii() {
        proof {
            let i = choose|i: int| 0 <= i < s@.len() && !('\0' <= #[trigger] s@[i] <= '\u{7f}');
            if digits(body) is Some {
                if body.len() == s@.len() {
                    lemma_digits_all(body, i);
                } else {
                    lemma_digits_all(body, i - 1);
                }
            }
        }
        return None;
    }
    let n: usize = s.unicode_len();
    let start: usize = if n > 0 && s.get_ascii(0) == PLUS {
        1
    } else {
        0
    };
    if start == n {
        return None;
    }
    let mut value: u32 = 0;
    let mut i: usize = start;
    while i < n
        invariant
            s.is_ascii(),
            n == s@.len(),
            start <= i <= n,
            body == s@.skip(start as int),
            body == unsigned_part(s@),
            body.len() > 0,
            digits(body.take(i - start)) == Some(value as nat),
            value <= u16::MAX,
        decreases n - i,
    {
        let b: u8 = s.get_ascii(i);
        let ghost k = i - start;
        assert(body.take(k + 1).drop_last() =~= body.take(k));
        assert(body.take(k + 1).last() == s@[i as int]);
        if b < ZERO || b > NINE {
            proof {
                if digits(body) is Some {
                    lemma_digits_prefix(body, k + 1);
                }
            }
            return None;
        }
        value = value * 10 + (b - ZERO) as u32;
        if value > 65535 {
            proof {
                if digits(body) is Some {
                    lemma_digits_prefix(body, k + 1);
                }
            }
            return None;
        }
        i += 1;
    }
    assert(body.take(n - start) =~= body);
    Some(value as u16)
}

} // verus!
