//! Unsigned numbers as decimal text.

use vstd::prelude::*;

verus! {

/// Whether `c` is an ASCII digit.
pub open spec fn is_digit(c: char) -> bool {
    '0' <= c && c <= '9'
}

/// The value of an ASCII digit.
pub open spec fn digit_value(c: char) -> nat {
    (c as u32 - '0' as u32) as nat
}

/// The digit that stands for `d`, for `d` below ten.
pub open spec fn digit_char(d: nat) -> char {
    (('0' as u32 + d) as u32) as char
}

/// Whether `s` consists of ASCII digits only.
pub open spec fn all_digits(s: Seq<char>) -> bool {
    forall|i: int| 0 <= i < s.len() ==> is_digit(#[trigger] s[i])
}

/// The number that the digits of `s` write.
pub open spec fn digits_value(s: Seq<char>) -> nat
    decreases s.len(),
{
    if s.len() == 0 {
        0
    } else {
        digits_value(s.drop_last()) * 10 + digit_value(s.last())
    }
}

/// The digits of `s` without an optional plus sign before them.
pub open spec fn unsigned_body(s: Seq<char>) -> Seq<char> {
    if s.len() > 0 && s[0] == '+' {
        s.drop_first()
    } else {
        s
    }
}

/// The number that `s` writes: an optional plus sign, then at least one
/// digit and nothing else; none if `s` is not of that form or the number
/// does not fit.
pub open spec fn decimal_u64(s: Seq<char>) -> Option<u64> {
    let body = unsigned_body(s);
    if body.len() > 0 && all_digits(body) && digits_value(body) <= u64::MAX {
        Some(digits_value(body) as u64)
    } else {
        None
    }
}

/// The number that the digits write grows with every digit.
pub proof fn lemma_digits_value_grows(s: Seq<char>, n: int)
    requires
        0 <= n <= s.len(),
    ensures
        digits_value(s.take(n)) <= digits_value(s),
    decreases s.len() - n,
{
    if n < s.len() {
        lemma_digits_value_grows(s, n + 1);
        assert(s.take(n + 1).drop_last() =~= s.take(n));
    } else {
        assert(s.take(n) =~= s);
    }
}

/// Reads an unsigned number from decimal text.
pub fn parse_u64(s: &Vec<char>) -> (r: Option<u64>)
    ensures
        r == decimal_u64(s@),
{
    let start: usize = if s.len() > 0 && s[0] == '+' {
        1
    } else {
        0
    };
    let ghost body = unsigned_body(s@);
    assert(body =~= s@.skip(start as int));
    if start == s.len() {
        return None;
    }
    let mut value: u64 = 0;
    let mut i: usize = start;
    assert(body.take(0) =~= Seq::<char>::empty());
    while i < s.len()
        invariant
            start <= i <= s.len(),
            body == s@.skip(start as int),
            body == unsigned_body(s@),
            all_digits(body.take(i - start)),
            value == digits_value(body.take(i - start)),
        decreases s.len() - i,
    {
        let c = s[i];
        proof {
            assert(body.take(i + 1 - start).drop_last() =~= body.take(i - start));
            assert(body.take(i + 1 - start).last() == c);
            lemma_digits_value_grows(body, i + 1 - start);
        }
        assert(body[i - start] == c);
        if !('0' <= c && c <= '9') {
            assert(!is_digit(body[i - start]));
            return None;
        }
        let d: u64 = (c as u32 - '0' as u32) as u64;
        assert(d == digit_value(c));
        assert(digits_value(body.take(i + 1 - start)) == value * 10 + d);
        if value > (u64::MAX - d) / 10 {
            assert(digits_value(body.take(i + 1 - start)) > u64::MAX);
            return None;
        }
        value = value * 10 + d;
        i += 1;
    }
    assert(body.take(s.len() - start) =~= body);
    Some(value)
}

/// The decimal digits of `n`, without leading zeros; `0` for zero.
pub open spec fn decimal_digits(n: nat) -> Seq<char>
    decreases n,
{
    if n < 10 {
        seq![digit_char(n)]
    } else {
        decimal_digits(n / 10).push(digit_char(n % 10))
    }
}

/// Writes an unsigned number of up to 128 bits as decimal text.
pub fn u128_digits(n: u128) -> (out: Vec<char>)
    ensures
        out@ == decimal_digits(n as nat),
    decreases n,
{
    let d: u32 = (n % 10) as u32;
    let c = char_of_digit(d);
    if n < 10 {
        let mut out: Vec<char> = Vec::new();
        out.push(c);
        assert(out@ =~= seq![digit_char(n as nat)]);
        out
    } else {
        let mut out = u128_digits(n / 10);
        out.push(c);
        out
    }
}

/// Writes an unsigned number as decimal text.
pub fn u64_digits(n: u64) -> (out: Vec<char>)
    ensures
        out@ == decimal_digits(n as nat),
{
    u128_digits(n as u128)
}

/// The digit that stands for `d`.
fn char_of_digit(d: u32) -> (c: char)
    requires
        d < 10,
    ensures
        c == digit_char(d as nat),
{
    let code: u8 = 48u8 + (d as u8);
    code as char
}

/// `digits` with zeros before them up to the width two.
pub open spec fn two_wide(digits: Seq<char>) -> Seq<char> {
    if digits.len() < 2 {
        seq!['0'] + digits
    } else {
        digits
    }
}

/// Writes a number with at least two digits.
pub fn u64_two_digits(n: u64) -> (out: Vec<char>)
    ensures
        out@ == two_wide(decimal_digits(n as nat)),
{
    let digits = u64_digits(n);
    if digits.len() < 2 {
        let mut out: Vec<char> = Vec::new();
        out.push('0');
        let mut rest = digits;
        out.append(&mut rest);
        assert(out@ =~= seq!['0'] + decimal_digits(n as nat));
        out
    } else {
        digits
    }
}

/// A whole number as decimal text, with a minus sign if it is negative.
pub open spec fn signed_digits(n: int) -> Seq<char> {
    if n < 0 {
        seq!['-'] + decimal_digits((-n) as nat)
    } else {
        decimal_digits(n as nat)
    }
}

/// Writes a whole number as decimal text.
pub fn i64_digits(n: i64) -> (out: Vec<char>)
    ensures
        out@ == signed_digits(n as int),
{
    if n < 0 {
        let magnitude: u64 = if n == i64::MIN {
            9223372036854775808u64
        } else {
            (-n) as u64
        };
        let mut out: Vec<char> = Vec::new();
        out.push('-');
        let mut digits = u64_digits(magnitude);
        out.append(&mut digits);
        assert(out@ =~= seq!['-'] + decimal_digits((-(n as int)) as nat));
        out
    } else {
        u64_digits(n as u64)
    }
}

} // verus!
