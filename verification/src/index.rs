//! Array indices written as text.

use vstd::prelude::*;

verus! {

/// Whether `c` is one of the ten decimal digits.
pub open spec fn is_digit(c: char) -> bool {
    '0' <= c && c <= '9'
}

/// The number that the digit `c` stands for.
pub open spec fn digit_value(c: char) -> nat {
    (c as int - '0' as int) as nat
}

/// Whether `s` holds decimal digits only.
pub open spec fn all_digits(s: Seq<char>) -> bool {
    forall|i: int| 0 <= i < s.len() ==> is_digit(#[trigger] s[i])
}

/// The number that a run of decimal digits writes, most significant digit
/// first. The empty run writes zero.
pub open spec fn decimal(digits: Seq<char>) -> nat
    decreases digits.len(),
{
    if digits.len() == 0 {
        0
    } else {
        10 * decimal(digits.drop_last()) + digit_value(digits.last())
    }
}

/// `text` without the one `+` that may lead it.
pub open spec fn unsigned_part(text: Seq<char>) -> Seq<char> {
    if text.len() > 0 && text[0] == '+' {
        text.skip(1)
    } else {
        text
    }
}

/// The index that `text` writes, if it writes one: a `+` or nothing, then one
/// or more decimal digits whose number is at most `usize::MAX`. Leading
/// zeros are allowed; a `-`, a blank or any other character is not.
pub open spec fn as_index(text: Seq<char>) -> Option<usize> {
    let digits = unsigned_part(text);
    if digits.len() > 0 && all_digits(digits) && decimal(digits) <= usize::MAX {
        Some(decimal(digits) as usize)
    } else {
        None
    }
}

/// A run of digits writes at least what any of its prefixes writes.
pub proof fn lemma_decimal_prefix(digits: Seq<char>, k: int)
    requires
        0 <= k <= digits.len(),
    ensures
        decimal(digits.take(k)) <= decimal(digits),
    decreases digits.len(),
{
    if k == digits.len() {
        assert(digits.take(k) =~= digits);
    } else {
        let front = digits.drop_last();
        lemma_decimal_prefix(front, k);
        assert(front.take(k) =~= digits.take(k));
    }
}

/// Reads `text` as an array index.
pub fn parse_index(text: &str) -> (index: Option<usize>)
    ensures
        index == as_index(text@),
{
    let ghost digits = unsigned_part(text@);
    let mut plus = false;
    let mut started = false;
    let mut seen_digit = false;
    let mut value: usize = 0;
    for c in it: text.chars()
        invariant
            it.seq() == text@,
            digits == unsigned_part(text@),
            started == (it.index() > 0),
            plus ==> started && text@[0] == '+',
            started && !plus ==> text@[0] != '+',
            ({
                let m = if plus { it.index() - 1 } else { it.index() };
                &&& 0 <= m <= digits.len()
                &&& seen_digit == (m > 0)
                &&& all_digits(digits.take(m))
                &&& value == decimal(digits.take(m))
            }),
    {
        let ghost m = if plus { it.index() - 1 } else { it.index() };
        if !started && c == '+' {
            plus = true;
        } else if '0' <= c && c <= '9' {
            let d = (c as u32 - '0' as u32) as usize;
            proof {
                assert(digits[m] == c);
                assert(digits.take(m + 1).drop_last() =~= digits.take(m));
                assert(digits.take(m + 1).last() == c);
                if all_digits(digits) {
                    lemma_decimal_prefix(digits, m + 1);
                }
            }
            if value > (usize::MAX - d) / 10 {
                return None;
            }
            value = value * 10 + d;
            seen_digit = true;
        } else {
            assert(digits[m] == c);
            return None;
        }
        started = true;
    }
    assert(digits.take(digits.len() as int) =~= digits);
    if seen_digit {
        Some(value)
    } else {
        None
    }
}

} // verus!
