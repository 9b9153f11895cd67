//! How numbers are read and written, character by character.

use vstd::prelude::*;

use crate::number::{
    all_digits, decimal, decimal_is_worth_its_number, decimal_value, digit_of, is_digit, number,
    overflows, unsigned_part, NumberError,
};

verus! {

/// Without text there is no number. A single character is a number exactly when it is one of the
/// ten digits.
pub proof fn single_characters(c: char, max: int)
    requires
        max >= 9,
    ensures
        number(Seq::empty(), max) == Err::<int, NumberError>(NumberError::Empty),
        '0' <= c <= '9' ==> number(seq![c], max) == Ok::<int, NumberError>(
            c as int - '0' as int,
        ),
        !('0' <= c <= '9') ==> number(seq![c], max) == Err::<int, NumberError>(
            NumberError::InvalidDigit,
        ),
{
    let s = seq![c];
    assert(unsigned_part(s) == s);
    assert(s.drop_last() =~= Seq::empty());
    assert(decimal_value(s) == c as int - '0' as int) by {
        reveal_with_fuel(decimal_value, 2);
    }
    assert forall|k: int| 0 <= k <= 1 && all_digits(#[trigger] s.take(k)) implies decimal_value(
        s.take(k),
    ) <= max by {
        if k == 0 {
            assert(s.take(k) =~= Seq::empty());
        } else {
            assert(s.take(k) =~= s);
            assert(is_digit(s[0]));
        }
    }
    assert(!('0' <= c <= '9') ==> !is_digit(s[0]));
}

proof fn takes_of_push(s: Seq<char>, c: char)
    ensures
        s.push(c).drop_last() == s,
        s.push(c).last() == c,
        s.push(c).take((s.len() + 1) as int) == s.push(c),
        forall|k: int| 0 <= k <= s.len() ==> #[trigger] s.push(c).take(k) == s.take(k),
{
    assert(s.push(c).drop_last() =~= s);
    assert(s.push(c).take((s.len() + 1) as int) =~= s.push(c));
    assert forall|k: int| 0 <= k <= s.len() implies #[trigger] s.push(c).take(k) == s.take(k) by {
        assert(s.push(c).take(k) =~= s.take(k));
    }
}

proof fn unsigned_part_of_push(s: Seq<char>, c: char)
    requires
        s.len() > 0,
        s.len() > 1 || s[0] != '+',
    ensures
        unsigned_part(s.push(c)) == unsigned_part(s).push(c),
{
    assert(unsigned_part(s.push(c)) =~= unsigned_part(s).push(c));
}

/// One more digit makes ten times the number and the digit, as far as numbers go. One more
/// character that is no digit makes no number.
pub proof fn one_more_character(s: Seq<char>, c: char, max: int)
    requires
        number(s, max) is Ok,
        max >= 0,
    ensures
        ({
            let v = number(s, max)->Ok_0;
            let more = v * 10 + (c as int - '0' as int);
            if '0' <= c <= '9' {
                if more <= max {
                    number(s.push(c), max) == Ok::<int, NumberError>(more)
                } else {
                    number(s.push(c), max) == Err::<int, NumberError>(NumberError::Overflow)
                }
            } else {
                number(s.push(c), max) == Err::<int, NumberError>(NumberError::InvalidDigit)
            }
        }),
{
    let digits = unsigned_part(s);
    if s.len() == 1 {
        assert(is_digit(digits[0]));
    }
    unsigned_part_of_push(s, c);
    takes_of_push(digits, c);
    let longer = digits.push(c);
    let v = number(s, max)->Ok_0;
    assert(digits.take(digits.len() as int) =~= digits);
    assert(longer[digits.len() as int] == c);
    if '0' <= c <= '9' {
        assert(all_digits(longer));
        assert(decimal_value(longer) == v * 10 + (c as int - '0' as int));
        if v * 10 + (c as int - '0' as int) > max {
            assert(all_digits(longer.take(longer.len() as int)));
            assert(overflows(longer, max));
        } else {
            assert forall|k: int|
                0 <= k <= longer.len() && all_digits(#[trigger] longer.take(k)) implies decimal_value(
                longer.take(k),
            ) <= max by {
                if k <= digits.len() {
                    assert(longer.take(k) == digits.take(k));
                } else {
                    assert(longer.take(k) == longer);
                }
            }
        }
    } else {
        assert(!is_digit(longer[digits.len() as int]));
        assert forall|k: int|
            0 <= k <= longer.len() && all_digits(#[trigger] longer.take(k)) implies decimal_value(
            longer.take(k),
        ) <= max by {
            if k <= digits.len() {
                assert(longer.take(k) == digits.take(k));
            } else {
                assert(longer.take(k)[digits.len() as int] == c);
            }
        }
    }
}

/// What is no number stays none, for the same reason, whatever follows. A plus sign alone and no
/// text at all are no number yet.
pub proof fn what_is_no_number_stays_none(s: Seq<char>, c: char, max: int)
    requires
        number(s, max) is Err,
        s.len() > 1 || (s.len() == 1 && s[0] != '+'),
    ensures
        number(s.push(c), max) == number(s, max),
{
    let digits = unsigned_part(s);
    unsigned_part_of_push(s, c);
    takes_of_push(digits, c);
    let longer = digits.push(c);
    if overflows(digits, max) {
        let k = choose|k: int|
            0 <= k <= digits.len() && all_digits(#[trigger] digits.take(k)) && decimal_value(
                digits.take(k),
            ) > max;
        assert(longer.take(k) == digits.take(k));
        assert(overflows(longer, max));
    } else {
        let bad = choose|i: int| 0 <= i < digits.len() && !is_digit(#[trigger] digits[i]);
        assert(longer[bad] == digits[bad]);
        assert(!is_digit(longer[bad]));
        assert forall|k: int|
            0 <= k <= longer.len() && all_digits(#[trigger] longer.take(k)) implies decimal_value(
            longer.take(k),
        ) <= max by {
            if k <= digits.len() {
                assert(longer.take(k) == digits.take(k));
            } else {
                assert(longer.take(k)[bad] == digits[bad]);
            }
        }
    }
}

/// One plus sign in front changes nothing; a second one makes no number.
pub proof fn a_plus_sign_in_front(s: Seq<char>, max: int)
    requires
        s.len() > 0,
        max >= 0,
    ensures
        s[0] != '+' ==> number(seq!['+'] + s, max) == number(s, max),
        s[0] == '+' ==> number(seq!['+'] + s, max) == Err::<int, NumberError>(
            NumberError::InvalidDigit,
        ),
{
    let signed = seq!['+'] + s;
    assert(signed.skip(1) =~= s);
    assert(unsigned_part(signed) == s);
    if s[0] == '+' {
        assert(!is_digit(s[0]));
        assert forall|k: int| 0 <= k <= s.len() && all_digits(#[trigger] s.take(k)) implies decimal_value(
            s.take(k),
        ) <= max by {
            if k > 0 {
                assert(s.take(k)[0] == s[0]);
            } else {
                assert(s.take(k) =~= Seq::empty());
            }
        }
    }
}

/// A number is written in the ten digits, with no zero in front of another digit, so that ten
/// times the number and a digit is written as the number with that digit behind it.
pub proof fn decimals_are_plain(n: nat, digit: nat)
    requires
        digit < 10,
    ensures
        decimal(n).len() > 0,
        forall|i: int| 0 <= i < decimal(n).len() ==> '0' <= #[trigger] decimal(n)[i] <= '9',
        n > 0 ==> decimal(n)[0] != '0',
        decimal(digit) == seq![('0' as int + digit) as char],
        n > 0 ==> decimal(n * 10 + digit) == decimal(n).push(('0' as int + digit) as char),
    decreases n,
{
    decimal_is_worth_its_number(n);
    assert forall|i: int| 0 <= i < decimal(n).len() implies '0' <= #[trigger] decimal(n)[i]
        <= '9' by {
        assert(is_digit(decimal(n)[i]));
    }
    if n >= 10 {
        decimals_are_plain(n / 10, 0);
        assert(decimal(n)[0] == decimal(n / 10)[0]);
    } else {
        assert(decimal(n)[0] == digit_of(n as int));
    }
    assert((n * 10 + digit) / 10 == n);
    assert((n * 10 + digit) % 10 == digit);
}

}
