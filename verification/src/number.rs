//! Decimal text to numbers and back.

use vstd::prelude::*;

use crate::text::{chars_of, push_char};

verus! {

/// The character of a decimal digit.
pub open spec fn digit_char(d: nat) -> char {
    (48 + d) as char
}

/// Whether `c` is one of `0` to `9`.
pub open spec fn is_digit(c: char) -> bool {
    '0' <= c <= '9'
}

/// The value of the digit `c`.
pub open spec fn digit_value(c: char) -> nat {
    (c as int - 48) as nat
}

/// The decimal form of `n`, without sign or leading zeros.
pub open spec fn decimal(n: nat) -> Seq<char>
    decreases n,
{
    if n < 10 {
        seq![digit_char(n)]
    } else {
        decimal(n / 10).push(digit_char(n % 10))
    }
}

/// Whether every character of `s` is a digit.
pub open spec fn all_digits(s: Seq<char>) -> bool {
    forall|i: int| 0 <= i < s.len() ==> is_digit(#[trigger] s[i])
}

/// The number that the digits `s` spell.
pub open spec fn digits_value(s: Seq<char>) -> nat
    decreases s.len(),
{
    if s.len() == 0 {
        0
    } else {
        digits_value(s.drop_last()) * 10 + digit_value(s.last())
    }
}

/// `s` without a leading sign character `sign`.
pub open spec fn unsigned_part(s: Seq<char>, sign: char) -> Seq<char> {
    if s.len() > 0 && s[0] == sign {
        s.drop_first()
    } else {
        s
    }
}

/// What `usize::from_str_radix(s, 10)` gives: an optional `+` and then at
/// least one digit, of a value that fits.
pub open spec fn parse_usize_spec(s: Seq<char>) -> Option<usize> {
    let body = unsigned_part(s, '+');
    if body.len() > 0 && all_digits(body) && digits_value(body) <= usize::MAX {
        Some(digits_value(body) as usize)
    } else {
        None
    }
}

/// What `i32::from_str_radix(s, 10)` gives: an optional `+` or `-` and then
/// at least one digit, of a value that fits.
pub open spec fn parse_i32_spec(s: Seq<char>) -> Option<i32> {
    if s.len() > 0 && s[0] == '-' {
        let body = s.drop_first();
        if body.len() > 0 && all_digits(body) && digits_value(body) <= 0x8000_0000 {
            Some((0 - digits_value(body)) as i32)
        } else {
            None
        }
    } else {
        let body = unsigned_part(s, '+');
        if body.len() > 0 && all_digits(body) && digits_value(body) <= i32::MAX {
            Some(digits_value(body) as i32)
        } else {
            None
        }
    }
}

/// More digits never spell a smaller number.
pub proof fn lemma_digits_value_grows(s: Seq<char>, i: int)
    requires
        0 <= i <= s.len(),
    ensures
        digits_value(s.take(i)) <= digits_value(s),
    decreases s.len() - i,
{
    if i < s.len() {
        lemma_digits_value_grows(s, i + 1);
        assert(s.take(i + 1).drop_last() == s.take(i));
    } else {
        assert(s.take(i) == s);
    }
}

/// The decimal form of `n`.
pub fn decimal_string(n: usize) -> (s: String)
    ensures
        s@ == decimal(n as nat),
    decreases n,
{
    let d = (n % 10) as u8;
    let c = (48u8 + d) as char;
    if n < 10 {
        let mut s = String::new();
        push_char(&mut s, c);
        s
    } else {
        let mut s = decimal_string(n / 10);
        push_char(&mut s, c);
        s
    }
}

/// The value of the digits `chars[from..]`, if they are all digits, at least
/// one, and their value is at most `limit`.
fn digits_up_to(chars: &Vec<char>, from: usize, limit: u64) -> (r: Option<u64>)
    requires
        from <= chars.len(),
        limit >= 9,
    ensures
        ({
            let body = chars@.skip(from as int);
            match r {
                Some(v) => body.len() > 0 && all_digits(body) && digits_value(body) <= limit
                    && v == digits_value(body),
                None => !(body.len() > 0 && all_digits(body) && digits_value(body) <= limit),
            }
        }),
{
    let ghost body = chars@.skip(from as int);
    if from == chars.len() {
        return None;
    }
    let mut acc: u64 = 0;
    let mut i = from;
    assert(body.take(0) == Seq::<char>::empty());
    while i < chars.len()
        invariant
            from <= i <= chars.len(),
            body == chars@.skip(from as int),
            all_digits(body.take(i - from)),
            acc == digits_value(body.take(i - from)),
            acc <= limit,
            limit >= 9,
        decreases chars.len() - i,
    {
        let c = chars[i];
        assert(body[i - from] == c);
        if !('0' <= c && c <= '9') {
            return None;
        }
        let d = (c as u32 - 48) as u64;
        assert(body.take(i + 1 - from).drop_last() == body.take(i - from));
        assert(body.take(i + 1 - from).last() == c);
        if acc > (limit - d) / 10 {
            proof {
                assert(acc * 10 + d > limit) by (nonlinear_arith)
                    requires
                        acc > (limit - d) / 10,
                        d <= limit || acc >= 1,
                ;
                lemma_digits_value_grows(body, i + 1 - from);
            }
            return None;
        }
        assert(acc * 10 + d <= limit) by (nonlinear_arith)
            requires
                acc <= (limit - d) / 10,
                d <= limit,
        ;
        acc = acc * 10 + d;
        i = i + 1;
    }
    assert(body.take(i - from) == body);
    Some(acc)
}

/// `usize::from_str_radix(s, 10)` as [`parse_usize_spec`] states it.
pub fn parse_usize(s: &str) -> (r: Option<usize>)
    ensures
        r == parse_usize_spec(s@),
{
    let chars = chars_of(s);
    let from: usize = if chars.len() > 0 && chars[0] == '+' {
        1
    } else {
        0
    };
    assert(chars@.skip(from as int) == unsigned_part(s@, '+'));
    match digits_up_to(&chars, from, usize::MAX as u64) {
        Some(v) => Some(v as usize),
        None => None,
    }
}

/// `i32::from_str_radix(s, 10)` as [`parse_i32_spec`] states it.
pub fn parse_i32(s: &str) -> (r: Option<i32>)
    ensures
        r == parse_i32_spec(s@),
{
    let chars = chars_of(s);
    if chars.len() > 0 && chars[0] == '-' {
        assert(chars@.skip(1) == s@.drop_first());
        match digits_up_to(&chars, 1, 0x8000_0000) {
            Some(v) => Some((0 - (v as i64)) as i32),
            None => None,
        }
    } else {
        let from: usize = if chars.len() > 0 && chars[0] == '+' {
            1
        } else {
            0
        };
        assert(chars@.skip(from as int) == unsigned_part(s@, '+'));
        match digits_up_to(&chars, from, 0x7fff_ffff) {
            Some(v) => Some(v as i32),
            None => None,
        }
    }
}

/// Reading back the decimal form of a number gives the number.
pub proof fn law_decimal_round_trip(n: usize)
    ensures
        parse_usize_spec(decimal(n as nat)) == Some(n),
{
    lemma_decimal_digits(n as nat);
}

/// Reading back the decimal form of an `i32`, with `-` before it when it is
/// negative, gives the number; a `+` before the form of a number that is
/// not negative is allowed, for either kind of number.
pub proof fn law_signed_decimal_round_trip(n: i32, m: usize)
    ensures
        parse_i32_spec(
            if n < 0 {
                seq!['-'] + decimal((0 - n) as nat)
            } else {
                decimal(n as nat)
            },
        ) == Some(n),
        n >= 0 ==> parse_i32_spec(seq!['+'] + decimal(n as nat)) == Some(n),
        parse_usize_spec(seq!['+'] + decimal(m as nat)) == Some(m),
{
    if n < 0 {
        let d = decimal((0 - n) as nat);
        lemma_decimal_digits((0 - n) as nat);
        assert((seq!['-'] + d).drop_first() == d);
    } else {
        lemma_decimal_digits(n as nat);
        assert((seq!['+'] + decimal(n as nat)).drop_first() == decimal(n as nat));
    }
    lemma_decimal_digits(m as nat);
    assert((seq!['+'] + decimal(m as nat)).drop_first() == decimal(m as nat));
}

/// The decimal form of `n` is made of digits that spell `n`, the first not `+`.
pub proof fn lemma_decimal_digits(n: nat)
    ensures
        decimal(n).len() > 0,
        all_digits(decimal(n)),
        digits_value(decimal(n)) == n,
        decimal(n)[0] != '+',
    decreases n,
{
    assert(digit_value(digit_char(n % 10)) == n % 10);
    if n < 10 {
        let s = decimal(n);
        assert(s == seq![digit_char(n)]);
        assert(s.drop_last() == Seq::<char>::empty());
        assert(digits_value(s.drop_last()) == 0);
        assert(s.last() == digit_char(n));
        assert(n % 10 == n);
        assert(digits_value(decimal(n)) == digit_value(digit_char(n)));
    } else {
        lemma_decimal_digits(n / 10);
        let d = decimal(n / 10);
        assert(decimal(n).drop_last() == d);
        assert(digit_value(digit_char(n % 10)) == n % 10);
        assert(n == (n / 10) * 10 + n % 10) by (nonlinear_arith);
        assert(decimal(n).last() == digit_char(n % 10));
        assert(digits_value(decimal(n)) == digits_value(d) * 10 + digit_value(digit_char(n % 10)));
        assert forall|i: int| 0 <= i < decimal(n).len() implies is_digit(#[trigger] decimal(n)[i]) by {
            if i < d.len() {
                assert(decimal(n)[i] == d[i]);
            }
        }
    }
}

} // verus!
