//! Numbers as texts: digits written and read.

use vstd::prelude::*;
use vstd::string::StringExecFns;

verus! {

#[verifier::external_type_specification]
#[verifier::external_body]
pub struct ExParseIntError(std::num::ParseIntError);

/// The character of a digit up to 35: `0` to `9`, then `a` to `z`.
pub open spec fn digit_char(d: nat) -> char {
    if d < 10 {
        (d + 48) as char
    } else {
        (d + 87) as char
    }
}

/// The decimal digits of `n`, the first one not 0 unless `n` is 0.
pub open spec fn decimal_digits(n: nat) -> Seq<char>
    decreases n,
{
    if n < 10 {
        seq![digit_char(n)]
    } else {
        decimal_digits(n / 10).push(digit_char(n % 10))
    }
}

/// The hexadecimal digits of `n`, in small letters, the first one not 0
/// unless `n` is 0.
pub open spec fn hexadecimal_digits(n: nat) -> Seq<char>
    decreases n,
{
    if n < 16 {
        seq![digit_char(n)]
    } else {
        hexadecimal_digits(n / 16).push(digit_char(n % 16))
    }
}

/// The digit that a character stands for in the given base, letters in
/// either case; nothing where it is no digit of that base.
pub open spec fn digit_value(c: char, base: nat) -> Option<nat> {
    let v: nat = if '0' <= c <= '9' {
        (c as nat - 48) as nat
    } else if 'a' <= c <= 'z' {
        (c as nat - 87) as nat
    } else if 'A' <= c <= 'Z' {
        (c as nat - 55) as nat
    } else {
        36
    };
    if v < base {
        Some(v)
    } else {
        None
    }
}

/// The number that a row of digits spells; nothing where the row is empty
/// or one of its characters is no digit.
pub open spec fn digits_value(text: Seq<char>, base: nat) -> Option<nat>
    decreases text.len(),
{
    if text.len() == 0 {
        None
    } else if text.len() == 1 {
        digit_value(text[0], base)
    } else {
        match (digits_value(text.drop_last(), base), digit_value(text.last(), base)) {
            (Some(front), Some(last)) => Some(front * base + last),
            _ => None,
        }
    }
}

/// The number that a numeral spells: digits, with or without `+` before them.
pub open spec fn numeral(text: Seq<char>, base: nat) -> Option<nat> {
    if text.len() > 0 && text[0] == '+' {
        digits_value(text.drop_first(), base)
    } else {
        digits_value(text, base)
    }
}

/// Parses with `u64::from_str_radix`: the text must be digits of the base,
/// with or without `+` before them, and the number must fit; then it is the
/// number that they spell.
#[verifier::external_body]
pub(crate) fn u64_from_str_radix(text: &str, radix: u32) -> (r: Result<u64, std::num::ParseIntError>)
    requires
        2 <= radix <= 36,
    ensures
        r is Ok <==> (numeral(text@, radix as nat) matches Some(n) && n <= u64::MAX),
        r matches Ok(n) ==> numeral(text@, radix as nat) == Some(n as nat),
{
    u64::from_str_radix(text, radix)
}

/// Parses with `usize::from_str_radix`: the text must be digits of the
/// base, with or without `+` before them, and the number must fit; then it
/// is the number that they spell.
#[verifier::external_body]
pub(crate) fn usize_from_str_radix(text: &str, radix: u32) -> (r: Result<
    usize,
    std::num::ParseIntError,
>)
    requires
        2 <= radix <= 36,
    ensures
        r is Ok <==> (numeral(text@, radix as nat) matches Some(n) && n <= usize::MAX),
        r matches Ok(n) ==> numeral(text@, radix as nat) == Some(n as nat),
{
    usize::from_str_radix(text, radix)
}

/// The text of one digit.
pub fn digit_str(d: u64) -> (r: &'static str)
    requires
        d < 16,
    ensures
        r@ == seq![digit_char(d as nat)],
{
    proof {
        reveal_strlit("0");
        reveal_strlit("1");
        reveal_strlit("2");
        reveal_strlit("3");
        reveal_strlit("4");
        reveal_strlit("5");
        reveal_strlit("6");
        reveal_strlit("7");
        reveal_strlit("8");
        reveal_strlit("9");
        reveal_strlit("a");
        reveal_strlit("b");
        reveal_strlit("c");
        reveal_strlit("d");
        reveal_strlit("e");
        reveal_strlit("f");
    }
    let r = if d == 0 {
        "0"
    } else if d == 1 {
        "1"
    } else if d == 2 {
        "2"
    } else if d == 3 {
        "3"
    } else if d == 4 {
        "4"
    } else if d == 5 {
        "5"
    } else if d == 6 {
        "6"
    } else if d == 7 {
        "7"
    } else if d == 8 {
        "8"
    } else if d == 9 {
        "9"
    } else if d == 10 {
        "a"
    } else if d == 11 {
        "b"
    } else if d == 12 {
        "c"
    } else if d == 13 {
        "d"
    } else if d == 14 {
        "e"
    } else {
        "f"
    };
    assert(r@ =~= seq![digit_char(d as nat)]);
    r
}

/// Appends the decimal digits of `num` to `text`.
pub fn push_decimal(text: &mut String, num: u64)
    ensures
        final(text)@ == old(text)@ + decimal_digits(num as nat),
    decreases num,
{
    if num < 10 {
        text.append(digit_str(num));
    } else {
        push_decimal(text, num / 10);
        text.append(digit_str(num % 10));
        assert(text@ =~= old(text)@ + decimal_digits(num as nat));
    }
}

/// Appends the hexadecimal digits of `num` to `text`.
pub fn push_hexadecimal(text: &mut String, num: u64)
    ensures
        final(text)@ == old(text)@ + hexadecimal_digits(num as nat),
    decreases num,
{
    if num < 16 {
        text.append(digit_str(num));
    } else {
        push_hexadecimal(text, num / 16);
        text.append(digit_str(num % 16));
        assert(text@ =~= old(text)@ + hexadecimal_digits(num as nat));
    }
}

} // verus!
