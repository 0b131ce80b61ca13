//! Validation of numeric command-line arguments.
//!
//! A numeric argument is the decimal literal of a 32-bit signed integer: an
//! optional sign, then at least one ASCII digit, with a value in range.

use vstd::prelude::*;
use vstd::string::*;

verus! {

/// `c` is one of the ASCII digits `0` to `9`.
pub open spec fn is_digit(c: char) -> bool {
    48 <= c as u32 && c as u32 <= 57
}

/// The number a digit stands for; 0 for any other character.
pub open spec fn digit_value(c: char) -> nat {
    if is_digit(c) {
        (c as u32 - 48) as nat
    } else {
        0
    }
}

/// Every character of `s` is a digit.
pub open spec fn all_digits(s: Seq<char>) -> bool {
    forall|i: int| 0 <= i < s.len() ==> is_digit(#[trigger] s[i])
}

/// The number that the digits `s` write in base ten.
pub open spec fn decimal_value(s: Seq<char>) -> nat
    decreases s.len(),
{
    if s.len() == 0 {
        0
    } else {
        decimal_value(s.drop_last()) * 10 + digit_value(s.last())
    }
}

/// `s` starts with a minus sign.
pub open spec fn is_negative(s: Seq<char>) -> bool {
    s.len() > 0 && s[0] == '-'
}

/// `s` starts with a plus or a minus sign.
pub open spec fn has_sign(s: Seq<char>) -> bool {
    s.len() > 0 && (s[0] == '-' || s[0] == '+')
}

/// What follows the sign, or all of `s` where it has none.
pub open spec fn magnitude(s: Seq<char>) -> Seq<char> {
    if has_sign(s) {
        s.subrange(1, s.len() as int)
    } else {
        s
    }
}

/// The largest magnitude that the sign of `s` allows.
pub open spec fn magnitude_limit(s: Seq<char>) -> nat {
    if is_negative(s) {
        2147483648
    } else {
        2147483647
    }
}

/// `s` is the decimal literal of a 32-bit signed integer.
pub open spec fn is_i32_literal(s: Seq<char>) -> bool {
    &&& magnitude(s).len() > 0
    &&& all_digits(magnitude(s))
    &&& decimal_value(magnitude(s)) <= magnitude_limit(s)
}

/// The integer that the literal `s` writes.
pub open spec fn literal_value(s: Seq<char>) -> int {
    if is_negative(s) {
        -(decimal_value(magnitude(s)) as int)
    } else {
        decimal_value(magnitude(s)) as int
    }
}

/// The message for an argument that is no such literal.
pub open spec fn rejection(arg: Seq<char>) -> Seq<char> {
    "unable to parse: "@ + arg
}

/// Digits written after a number never make it smaller.
proof fn lemma_prefix_value(s: Seq<char>, k: int)
    requires
        0 <= k <= s.len(),
    ensures
        decimal_value(s.take(k)) <= decimal_value(s),
    decreases s.len(),
{
    if k == s.len() {
        assert(s.take(k) =~= s);
    } else {
        lemma_prefix_value(s.drop_last(), k);
        assert(s.drop_last().take(k) =~= s.take(k));
    }
}

/// Reads `text` as the decimal literal of a 32-bit signed integer.
pub fn parse_i32(text: &str) -> (value: Option<i32>)
    ensures
        value is Some <==> is_i32_literal(text@),
        value matches Some(v) ==> v as int == literal_value(text@),
{
    let n: usize = text.unicode_len();
    if n == 0 {
        return None;
    }
    let first: char = text.get_char(0);
    let negative: bool = first == '-';
    let start: usize = if first == '-' || first == '+' {
        1
    } else {
        0
    };
    if start == n {
        return None;
    }
    let limit: u64 = if negative {
        2147483648
    } else {
        2147483647
    };
    let ghost digits = magnitude(text@);
    assert(digits =~= text@.subrange(start as int, n as int));
    let mut acc: u64 = 0;
    let mut i: usize = start;
    while i < n
        invariant
            start <= i <= n,
            n == text@.len(),
            digits == magnitude(text@),
            digits == text@.subrange(start as int, n as int),
            limit == magnitude_limit(text@),
            all_digits(digits.take(i - start)),
            acc == decimal_value(digits.take(i - start)),
            acc <= limit <= 2147483648,
        decreases n - i,
    {
        let code: u32 = text.get_char(i) as u32;
        if code < 48 || code > 57 {
            assert(!is_digit(digits[i - start]));
            return None;
        }
        let digit: u64 = (code - 48) as u64;
        acc = acc * 10 + digit;
        proof {
            let longer = digits.take(i + 1 - start);
            assert(longer.drop_last() =~= digits.take(i - start));
            assert(longer.last() == text@[i as int]);
            assert(all_digits(longer)) by {
                assert forall|j: int| 0 <= j < longer.len() implies is_digit(
                    #[trigger] longer[j],
                ) by {
                    if j < i - start {
                        assert(longer[j] == digits.take(i - start)[j]);
                    }
                }
            }
        }
        if acc > limit {
            proof {
                lemma_prefix_value(digits, i + 1 - start);
            }
            return None;
        }
        i += 1;
    }
    assert(digits.take(n - start) =~= digits);
    let value: i32 = if negative {
        if acc == 2147483648 {
            i32::MIN
        } else {
            -(acc as i32)
        }
    } else {
        acc as i32
    };
    Some(value)
}

/// Accepts `arg` where it is a numeric argument, and says so where it is not.
pub fn arg_validate_parse(arg: String) -> (checked: Result<(), String>)
    ensures
        checked is Ok <==> is_i32_literal(arg@),
        checked matches Err(message) ==> message@ == rejection(arg@),
{
    match parse_i32(arg.as_str()) {
        Some(_) => Ok(()),
        None => Err(String::from_str("unable to parse: ").concat(arg.as_str())),
    }
}

} // verus!
