//! Numeric literals.

use vstd::prelude::*;
use crate::lexer::TokenKind;
use crate::rules::{
    all_in, class_has, in_class, is_digit, is_float_split, lemma_float_dot, rule_accepts, run_end,
    CharClass,
};
use crate::text::chars_of;

verus! {

/// The value of the decimal digit `c`.
pub open spec fn digit_value(c: char) -> int {
    c as u32 - '0' as u32
}

/// The number that the decimal digits `t` denote.
pub open spec fn decimal_value(t: Seq<char>) -> int
    decreases t.len(),
{
    if t.len() == 0 {
        0
    } else {
        decimal_value(t.drop_last()) * 10 + digit_value(t.last())
    }
}

/// Whether `t` starts with a sign.
pub open spec fn has_sign(t: Seq<char>) -> bool {
    t.len() > 0 && (t[0] == '-' || t[0] == '+')
}

/// The digits of `t`: all of it but a leading sign.
pub open spec fn digits_of(t: Seq<char>) -> Seq<char> {
    if has_sign(t) {
        t.drop_first()
    } else {
        t
    }
}

/// The integer that `t` denotes: an optional sign and at least one decimal
/// digit, with a value that fits in 64 bits. `None` for any other text.
pub open spec fn int_value(t: Seq<char>) -> Option<int> {
    let digits = digits_of(t);
    let value = if has_sign(t) && t[0] == '-' {
        -decimal_value(digits)
    } else {
        decimal_value(digits)
    };
    if digits.len() > 0 && all_in(CharClass::Digit, digits) && i64::MIN <= value <= i64::MAX {
        Some(value)
    } else {
        None
    }
}

/// The value of digits is not negative.
pub proof fn lemma_decimal_value_nonnegative(t: Seq<char>)
    requires
        all_in(CharClass::Digit, t),
    ensures
        0 <= decimal_value(t),
    decreases t.len(),
{
    if t.len() > 0 {
        assert(is_digit(t[t.len() - 1]));
        assert forall|i: int| 0 <= i < t.drop_last().len() implies is_digit(
            #[trigger] t.drop_last()[i],
        ) by {
            assert(t.drop_last()[i] == t[i]);
        }
        lemma_decimal_value_nonnegative(t.drop_last());
    }
}

/// More digits do not make the value smaller.
pub proof fn lemma_decimal_value_grows(t: Seq<char>, k: int)
    requires
        all_in(CharClass::Digit, t),
        0 <= k <= t.len(),
    ensures
        decimal_value(t.take(k)) <= decimal_value(t),
    decreases t.len() - k,
{
    if k == t.len() {
        assert(t.take(k) =~= t);
    } else {
        lemma_decimal_value_grows(t, k + 1);
        assert(t.take(k + 1).drop_last() =~= t.take(k));
        assert(t.take(k + 1).last() == t[k]);
        assert(is_digit(t[k]));
        assert forall|i: int| 0 <= i < t.take(k).len() implies is_digit(#[trigger] t.take(k)[i]) by {
            assert(t.take(k)[i] == t[i]);
        }
        lemma_decimal_value_nonnegative(t.take(k));
    }
}

/// Decodes an integer literal as the standard decimal decoder for 64-bit
/// signed integers does.
pub fn parse_int(text: &str) -> (r: Option<i64>)
    ensures
        match int_value(text@) {
            Some(value) => r == Some(value as i64),
            None => r is None,
        },
{
    let chars = chars_of(text);
    let n = chars.len();
    if n == 0 {
        return None;
    }
    let negative = chars[0] == '-';
    let start: usize = if negative || chars[0] == '+' {
        1
    } else {
        0
    };
    if start == n {
        return None;
    }
    let ghost digits = digits_of(text@);
    assert(digits =~= chars@.subrange(start as int, n as int));
    let limit: u64 = 9223372036854775808;
    let mut magnitude: u64 = 0;
    let mut i: usize = start;
    while i < n
        invariant
            start <= i <= n == chars@.len(),
            digits == chars@.subrange(start as int, n as int),
            digits == digits_of(text@),
            limit == 9223372036854775808,
            magnitude <= limit,
            magnitude == decimal_value(digits.take(i - start)),
            forall|j: int| 0 <= j < i - start ==> is_digit(#[trigger] digits[j]),
        decreases n - i,
    {
        let c = chars[i];
        assert(digits[i - start] == c);
        if !class_has(CharClass::Digit, c) {
            assert(!in_class(CharClass::Digit, digits[i - start]));
            return None;
        }
        let digit: u64 = (c as u32 - '0' as u32) as u64;
        proof {
            assert(digits.take(i - start + 1).drop_last() =~= digits.take(i - start));
            assert(digits.take(i - start + 1).last() == c);
        }
        if magnitude > (limit - digit) / 10 {
            proof {
                if all_in(CharClass::Digit, digits) {
                    lemma_decimal_value_grows(digits, i - start + 1);
                }
            }
            return None;
        }
        magnitude = magnitude * 10 + digit;
        i += 1;
    }
    assert(digits.take(n - start) =~= digits);
    if negative {
        if magnitude == limit {
            Some(i64::MIN)
        } else {
            Some(-(magnitude as i64))
        }
    } else {
        if magnitude == limit {
            None
        } else {
            Some(magnitude as i64)
        }
    }
}

/// Whether `text` has the form of a floating-point literal: digits, a dot,
/// digits.
pub fn is_float_literal(text: &str) -> (b: bool)
    ensures
        b == rule_accepts(TokenKind::FloatLit, text@),
{
    let chars = chars_of(text);
    let n = chars.len();
    let dot = run_end(&chars, 0, CharClass::Digit);
    assert(chars@.subrange(0, n as int) =~= chars@);
    if dot == 0 || dot >= n || chars[dot] != '.' {
        proof {
            if rule_accepts(TokenKind::FloatLit, chars@) {
                let k = choose|k: int| is_float_split(chars@, k);
                assert(is_digit(chars@[0]));
                lemma_float_dot(chars@, 0, dot as int, n as int, k);
            }
        }
        return false;
    }
    let end = run_end(&chars, dot + 1, CharClass::Digit);
    if end == n && end > dot + 1 {
        proof {
            assert(is_float_split(chars@, dot as int)) by {
                assert forall|i: int| 0 <= i < dot implies is_digit(#[trigger] chars@[i]) by {
                    assert(in_class(CharClass::Digit, chars@[i]));
                }
                assert forall|i: int| dot < i < chars@.len() implies is_digit(
                    #[trigger] chars@[i],
                ) by {
                    assert(in_class(CharClass::Digit, chars@[i]));
                }
            }
        }
        true
    } else {
        proof {
            if rule_accepts(TokenKind::FloatLit, chars@) {
                let k = choose|k: int| is_float_split(chars@, k);
                lemma_float_dot(chars@, 0, dot as int, n as int, k);
                if end < n {
                    assert(is_digit(chars@[end as int]));
                }
            }
        }
        false
    }
}

} // verus!
