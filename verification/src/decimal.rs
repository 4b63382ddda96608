//! Decimal numerals: reading the value of a run of digits, and writing a
//! number out as digits.

use vstd::prelude::*;
use vstd::string::*;
use crate::chars::{all_digits, digit_value, is_digit};

verus! {

/// The number that a run of decimal digits denotes, most significant digit
/// first. The empty run denotes zero.
pub open spec fn decimal_value(digits: Seq<char>) -> nat
    decreases digits.len(),
{
    if digits.len() == 0 {
        0
    } else {
        (decimal_value(digits.drop_last()) * 10 + digit_value(digits.last())) as nat
    }
}

/// The value of an integer literal: that of its digits, where the text is a
/// non-empty run of digits and the number fits a signed 64-bit integer.
pub open spec fn integer_value(text: Seq<char>) -> Option<i64> {
    if text.len() > 0 && all_digits(text) && decimal_value(text) <= i64::MAX {
        Some(decimal_value(text) as i64)
    } else {
        None
    }
}

/// A longer run of digits denotes at least what its prefix denotes.
pub proof fn lemma_decimal_value_grows(digits: Seq<char>, n: int)
    requires
        all_digits(digits),
        0 <= n <= digits.len(),
    ensures
        decimal_value(digits.take(n)) <= decimal_value(digits),
    decreases digits.len() - n,
{
    if n == digits.len() {
        assert(digits.take(n) =~= digits);
    } else {
        let longer = digits.take(n + 1);
        assert(longer.drop_last() =~= digits.take(n));
        assert(is_digit(longer.last()));
        lemma_decimal_value_grows(digits, n + 1);
    }
}

/// Reads an integer literal.
pub fn parse_integer(text: &str) -> (value: Option<i64>)
    ensures
        value == integer_value(text@),
{
    let n: usize = text.unicode_len();
    if n == 0 {
        return None;
    }
    let mut acc: i64 = 0;
    let mut i: usize = 0;
    while i < n
        invariant
            n == text@.len(),
            0 <= i <= n,
            all_digits(text@.take(i as int)),
            acc == decimal_value(text@.take(i as int)),
        decreases n - i,
    {
        let c: char = text.get_char(i);
        let ghost before = text@.take(i as int);
        let ghost after = text@.take(i + 1);
        proof {
            assert(after.drop_last() =~= before);
            assert(after.last() == c);
        }
        if !is_digit(c) {
            proof {
                assert(text@[i as int] == c);
            }
            return None;
        }
        let d: i64 = (c as u8 - 48u8) as i64;
        if acc > (i64::MAX - d) / 10 {
            proof {
                assert(decimal_value(after) > i64::MAX);
                if all_digits(text@) {
                    lemma_decimal_value_grows(text@, i + 1);
                }
            }
            return None;
        }
        acc = acc * 10 + d;
        i = i + 1;
        proof {
            assert forall|k: int| 0 <= k < after.len() implies is_digit(#[trigger] after[k]) by {
                if k < i - 1 {
                    assert(after[k] == before[k]);
                }
            }
        }
    }
    proof {
        assert(text@.take(n as int) =~= text@);
    }
    Some(acc)
}

/// The character of a digit `d`, for `d` below ten.
pub open spec fn digit_char(d: nat) -> char {
    (d + 48) as char
}

/// A number written in decimal, without a sign and without leading zeros.
pub open spec fn decimal_text(n: nat) -> Seq<char>
    decreases n,
{
    if n < 10 {
        seq![digit_char(n)]
    } else {
        decimal_text(n / 10).push(digit_char(n % 10))
    }
}

/// Writing a number out and reading the digits back gives the number.
pub proof fn lemma_decimal_round_trip(n: nat)
    ensures
        decimal_text(n).len() > 0,
        all_digits(decimal_text(n)),
        decimal_value(decimal_text(n)) == n,
    decreases n,
{
    let text = decimal_text(n);
    let low = digit_char(n % 10);
    assert(text.last() == low);
    assert(digit_value(low) == n % 10);
    if n < 10 {
        assert(text.drop_last() =~= Seq::<char>::empty());
        assert(decimal_value(text.drop_last()) == 0);
    } else {
        lemma_decimal_round_trip(n / 10);
        let high = decimal_text(n / 10);
        assert(text.drop_last() =~= high);
        assert forall|i: int| 0 <= i < text.len() implies is_digit(#[trigger] text[i]) by {
            if i < high.len() {
                assert(text[i] == high[i]);
            }
        }
    }
}

/// `String::push` of the standard library, taken on trust: the string
/// afterwards holds the characters it held, in their order, and then `ch`.
pub assume_specification[ String::push ](string: &mut String, ch: char)
    ensures
        final(string)@ == old(string)@.push(ch),
;

/// Appends `n`, written in decimal, to `out`.
pub fn push_decimal(out: &mut String, n: usize)
    ensures
        final(out)@ == old(out)@ + decimal_text(n as nat),
    decreases n,
{
    if n >= 10 {
        push_decimal(out, n / 10);
    }
    let d: u8 = (n % 10) as u8;
    out.push((d + 48u8) as char);
    proof {
        let low = digit_char((n % 10) as nat);
        if n < 10 {
            assert(old(out)@.push(low) =~= old(out)@ + seq![low]);
        } else {
            let high = decimal_text((n / 10) as nat);
            assert((old(out)@ + high).push(low) =~= old(out)@ + high.push(low));
        }
    }
}

} // verus!
