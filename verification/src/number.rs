//! Unsigned decimal numbers: reading them from text and writing them as text.

use vstd::prelude::*;
use vstd::string::*;

verus! {

/// Why a text is no number.
#[derive(Clone, Copy, PartialEq, Eq, Debug, Structural)]
pub enum NumberError {
    /// There is no text.
    Empty,
    /// A character is no decimal digit, before the digits in front of it are too many.
    InvalidDigit,
    /// The leading digits alone are worth more than the largest number.
    Overflow,
}

/// What is said of each kind of failure.
pub open spec fn number_error_text(e: NumberError) -> Seq<char> {
    match e {
        NumberError::Empty => "cannot parse integer from empty string"@,
        NumberError::InvalidDigit => "invalid digit found in string"@,
        NumberError::Overflow => "number too large to fit in target type"@,
    }
}

impl NumberError {
    /// The failure in words.
    pub fn text(&self) -> (r: &'static str)
        ensures
            r@ == number_error_text(*self),
    {
        match self {
            NumberError::Empty => "cannot parse integer from empty string",
            NumberError::InvalidDigit => "invalid digit found in string",
            NumberError::Overflow => "number too large to fit in target type",
        }
    }
}

pub open spec fn is_digit(c: char) -> bool {
    '0' <= c <= '9'
}

pub open spec fn digit_value(c: char) -> int {
    c as int - '0' as int
}

pub open spec fn all_digits(s: Seq<char>) -> bool {
    forall|i: int| 0 <= i < s.len() ==> is_digit(#[trigger] s[i])
}

/// What a row of digits is worth.
pub open spec fn decimal_value(s: Seq<char>) -> int
    decreases s.len(),
{
    if s.len() == 0 {
        0
    } else {
        decimal_value(s.drop_last()) * 10 + digit_value(s.last())
    }
}

/// A number without its sign. A plus sign needs something behind it.
pub open spec fn unsigned_part(s: Seq<char>) -> Seq<char> {
    if s.len() > 1 && s[0] == '+' {
        s.skip(1)
    } else {
        s
    }
}

/// Some leading digits are already worth more than `max`.
pub open spec fn overflows(digits: Seq<char>, max: int) -> bool {
    exists|k: int|
        0 <= k <= digits.len() && all_digits(#[trigger] digits.take(k)) && decimal_value(
            digits.take(k),
        ) > max
}

/// The number that `s` writes out, if it is at most `max`: digits, with or without a plus sign.
pub open spec fn number(s: Seq<char>, max: int) -> Result<int, NumberError> {
    let digits = unsigned_part(s);
    if s.len() == 0 {
        Err(NumberError::Empty)
    } else if overflows(digits, max) {
        Err(NumberError::Overflow)
    } else if !all_digits(digits) {
        Err(NumberError::InvalidDigit)
    } else {
        Ok(decimal_value(digits))
    }
}

/// Reads a number of at most `max`.
fn parse_decimal(s: &str, max: u64) -> (r: Result<u64, NumberError>)
    ensures
        match r {
            Ok(n) => number(s@, max as int) == Ok::<int, NumberError>(n as int) && n <= max,
            Err(e) => number(s@, max as int) == Err::<int, NumberError>(e),
        },
{
    if s.is_empty() {
        return Err(NumberError::Empty);
    }
    let len: usize = s.unicode_len();
    let digits: &str = if len > 1 && s.get_char(0) == '+' {
        s.substring_char(1, len)
    } else {
        s
    };
    assert(digits@ =~= unsigned_part(s@));
    let mut value: u64 = 0;
    assert(digits@.take(0) =~= Seq::empty());
    for c in it: digits.chars()
        invariant
            it.seq() == digits@,
            digits@ == unsigned_part(s@),
            s@.len() > 0,
            value <= max,
            all_digits(digits@.take(it.index() as int)),
            value == decimal_value(digits@.take(it.index() as int)),
            forall|k: int|
                0 <= k <= it.index() ==> decimal_value(#[trigger] digits@.take(k)) <= max,
    {
        let ghost at = it.index() as int;
        let ghost seen = digits@.take(at);
        let ghost next = digits@.take(at + 1);
        assert(next =~= seen.push(c));
        assert(next.drop_last() =~= seen);
        if c < '0' || '9' < c {
            assert forall|k: int|
                0 <= k <= digits@.len() && all_digits(#[trigger] digits@.take(k)) implies decimal_value(
                digits@.take(k),
            ) <= max by {
                if k > at {
                    assert(digits@.take(k)[at] == c);
                    assert(!is_digit(c));
                }
            }
            assert(digits@[at] == c);
            return Err(NumberError::InvalidDigit);
        }
        let digit: u64 = c as u64 - '0' as u64;
        let larger: u128 = value as u128 * 10 + digit as u128;
        assert(all_digits(next)) by {
            assert forall|i: int| 0 <= i < next.len() implies is_digit(#[trigger] next[i]) by {
                if i < at {
                    assert(seen[i] == next[i]);
                }
            }
        }
        assert(decimal_value(next) == larger);
        if larger > max as u128 {
            return Err(NumberError::Overflow);
        }
        value = larger as u64;
    }
    assert(digits@.take(digits@.len() as int) =~= digits@);
    Ok(value)
}

/// Reads a `u64`.
pub fn parse_u64(s: &str) -> (r: Result<u64, NumberError>)
    ensures
        match r {
            Ok(n) => number(s@, u64::MAX as int) == Ok::<int, NumberError>(n as int),
            Err(e) => number(s@, u64::MAX as int) == Err::<int, NumberError>(e),
        },
{
    parse_decimal(s, u64::MAX)
}

/// Reads a `usize`.
pub fn parse_usize(s: &str) -> (r: Result<usize, NumberError>)
    ensures
        match r {
            Ok(n) => number(s@, usize::MAX as int) == Ok::<int, NumberError>(n as int),
            Err(e) => number(s@, usize::MAX as int) == Err::<int, NumberError>(e),
        },
{
    match parse_decimal(s, usize::MAX as u64) {
        Ok(n) => Ok(n as usize),
        Err(e) => Err(e),
    }
}

/// The digit that stands for `n`.
pub open spec fn digit_of(n: int) -> char {
    ('0' as int + n) as char
}

/// `n` written out, without leading zeros.
pub open spec fn decimal(n: nat) -> Seq<char>
    decreases n,
{
    if n < 10 {
        seq![digit_of(n as int)]
    } else {
        decimal(n / 10).push(digit_of((n % 10) as int))
    }
}

/// The digit for a number below ten, as text.
fn digit_text(n: u64) -> (r: &'static str)
    requires
        n < 10,
    ensures
        r@ == seq![digit_of(n as int)],
{
    proof {
        reveal_strlit("0");
        reveal_strlit("1");
        reveal_strlit("2");
        reveal_strlit("3");
        reveal_strlit("4");
        reveal_strlit("5");
        reveal_strlit("6");
        reveal_strlit("7");
        reveal_strlit("8");
        reveal_strlit("9");
    }
    let r: &'static str = match n {
        0 => "0",
        1 => "1",
        2 => "2",
        3 => "3",
        4 => "4",
        5 => "5",
        6 => "6",
        7 => "7",
        8 => "8",
        _ => "9",
    };
    assert(r@ =~= seq![digit_of(n as int)]);
    r
}

/// Writes `n` at the end of `out`.
pub fn push_decimal(out: &mut String, n: u64)
    ensures
        final(out)@ == old(out)@ + decimal(n as nat),
    decreases n,
{
    if n < 10 {
        out.append(digit_text(n));
    } else {
        push_decimal(out, n / 10);
        out.append(digit_text(n % 10));
        assert(decimal(n as nat) =~= decimal((n / 10) as nat) + seq![digit_of((n % 10) as int)]);
        assert(out@ =~= old(out)@ + decimal(n as nat));
    }
}

/// Digits are worth at least what any of their leading digits are worth.
proof fn leading_digits_are_less(s: Seq<char>, k: int)
    requires
        all_digits(s),
        0 <= k <= s.len(),
    ensures
        0 <= decimal_value(s.take(k)) <= decimal_value(s),
    decreases s.len(),
{
    if s.len() == 0 {
        assert(s.take(k) =~= s);
    } else {
        let init = s.drop_last();
        assert forall|i: int| 0 <= i < init.len() implies is_digit(#[trigger] init[i]) by {
            assert(s[i] == init[i]);
        }
        assert(is_digit(s[s.len() - 1]));
        if k == s.len() {
            leading_digits_are_less(init, init.len() as int);
            assert(init.take(init.len() as int) =~= init);
            assert(s.take(k) =~= s);
        } else {
            leading_digits_are_less(init, k);
            assert(init.take(k) =~= s.take(k));
        }
    }
}

/// What is written out for `n` are digits that are worth `n`.
pub proof fn decimal_is_worth_its_number(n: nat)
    ensures
        decimal(n).len() > 0,
        all_digits(decimal(n)),
        decimal_value(decimal(n)) == n,
    decreases n,
{
    let s = decimal(n);
    if n < 10 {
        assert(s.drop_last() =~= Seq::empty());
        assert(s.last() == digit_of(n as int));
        assert(decimal_value(s.drop_last()) == 0);
    } else {
        decimal_is_worth_its_number(n / 10);
        assert(s.drop_last() =~= decimal(n / 10));
        assert forall|i: int| 0 <= i < s.len() implies is_digit(#[trigger] s[i]) by {
            if i < s.len() - 1 {
                assert(s[i] == decimal(n / 10)[i]);
            }
        }
    }
}

/// A number that is written out reads as itself, up to the largest number that can be read.
pub proof fn number_of_decimal(n: nat, max: int)
    requires
        n <= max,
    ensures
        number(decimal(n), max) == Ok::<int, NumberError>(n as int),
{
    let s = decimal(n);
    decimal_is_worth_its_number(n);
    assert(is_digit(s[0]));
    assert(unsigned_part(s) == s);
    assert forall|k: int|
        0 <= k <= s.len() && all_digits(#[trigger] s.take(k)) implies decimal_value(s.take(k))
        <= max by {
        leading_digits_are_less(s, k);
    }
}

/// A larger limit changes nothing for a text that already reads as a number.
pub proof fn number_under_a_larger_limit(s: Seq<char>, max: int, larger: int)
    requires
        max <= larger,
        number(s, max) is Ok,
    ensures
        number(s, larger) == number(s, max),
        number(s, max)->Ok_0 <= max,
{
    let digits = unsigned_part(s);
    assert(digits.take(digits.len() as int) =~= digits);
    assert forall|k: int|
        0 <= k <= digits.len() && all_digits(#[trigger] digits.take(k)) implies decimal_value(
        digits.take(k),
    ) <= larger by {}
}

}
