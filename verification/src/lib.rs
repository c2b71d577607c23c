//! Reading, querying and rebuilding the file system table of a disc image,
//! and the layout of the sections around it.

use vstd::prelude::*;
use vstd::string::{StrSliceExecFns, StringExecFns};

pub mod bytes;
pub mod game;
pub mod number;
pub mod order;
pub mod paths;
pub mod rom_rebuilder;
pub mod sections;

pub use game::Game;
pub use rom_rebuilder::{ROMRebuilder, ROM_SIZE};

verus! {

/// How many bytes are written at once when a region is copied or filled.
pub const WRITE_CHUNK_SIZE: usize = 1048576;

/// The alignment of files when none is asked for: 32 KiB.
pub const DEFAULT_ALIGNMENT: u64 = 32 * 1024;

/// The smallest alignment that is accepted.
pub const MIN_ALIGNMENT: u64 = 4;

/// The smallest multiple of `m` that is not below `n`.
pub open spec fn align_up(n: int, m: int) -> int
    recommends
        m > 0,
{
    if n % m == 0 {
        n
    } else {
        (n / m + 1) * m
    }
}

/// `align_up(n, m)` is a multiple of `m`, and the first one from `n` on.
pub proof fn lemma_align_up(n: int, m: int)
    requires
        n >= 0,
        m > 0,
    ensures
        align_up(n, m) % m == 0,
        n <= align_up(n, m) < n + m,
{
    vstd::arithmetic::div_mod::lemma_fundamental_div_mod(n, m);
    vstd::arithmetic::div_mod::lemma_mod_bound(n, m);
    if n % m != 0 {
        vstd::arithmetic::div_mod::lemma_mod_multiples_basic(n / m + 1, m);
        assert((n / m + 1) * m == m * (n / m) + m) by (nonlinear_arith);
    }
}

/// Rounds `n` up to the next multiple of `m`.
pub fn align(n: u64, m: u64) -> (r: u64)
    requires
        m > 0,
        align_up(n as int, m as int) <= u64::MAX,
    ensures
        r == align_up(n as int, m as int),
{
    proof {
        vstd::arithmetic::div_mod::lemma_fundamental_div_mod(n as int, m as int);
    }
    let q: u64 = n / m;
    if n % m == 0 {
        assert(q * m == n) by (nonlinear_arith)
            requires
                n as int == m as int * (n as int / m as int) + (n as int % m as int),
                n as int % m as int == 0,
                q as int == n as int / m as int,
        ;
        q * m
    } else {
        assert(q + 1 <= (q + 1) * m) by (nonlinear_arith)
            requires
                m >= 1,
        ;
        (q + 1) * m
    }
}

/// Rounds `n` up to the next multiple of `m`, if that is a 64-bit number.
pub fn checked_align(n: u64, m: u64) -> (r: Option<u64>)
    requires
        m > 0,
    ensures
        r == if align_up(n as int, m as int) <= u64::MAX {
            Some(align_up(n as int, m as int) as u64)
        } else {
            None
        },
{
    let rest = n % m;
    if rest == 0 {
        Some(n)
    } else {
        proof {
            vstd::arithmetic::div_mod::lemma_fundamental_div_mod(n as int, m as int);
            assert((n as int / m as int + 1) * m as int == n - rest + m) by (nonlinear_arith)
                requires
                    n as int == m as int * (n as int / m as int) + rest as int,
            ;
        }
        n.checked_add(m - rest)
    }
}

/// How numbers are shown.
#[derive(Copy, Clone, Debug, PartialEq, Eq, Structural)]
pub enum NumberStyle {
    Hexadecimal,
    Decimal,
}

/// An error with the message that tells of it.
pub struct AppError(pub String);

impl AppError {
    pub fn new(msg: &str) -> (r: AppError)
        ensures
            r.0@ == msg@,
    {
        AppError(String::from_str(msg))
    }

    /// The message.
    pub fn message(&self) -> (r: &str)
        ensures
            r@ == self.0@,
    {
        self.0.as_str()
    }
}

pub type AppResult = Result<(), AppError>;

/// The number as a text: in decimal digits, or in hexadecimal digits, small
/// letters, behind `0x`.
pub open spec fn formatted(num: nat, style: NumberStyle) -> Seq<char> {
    match style {
        NumberStyle::Hexadecimal => seq!['0', 'x'] + number::hexadecimal_digits(num),
        NumberStyle::Decimal => number::decimal_digits(num),
    }
}

pub fn format_u64(num: u64, style: NumberStyle) -> (r: String)
    ensures
        r@ == formatted(num as nat, style),
{
    match style {
        NumberStyle::Hexadecimal => {
            proof {
                reveal_strlit("0x");
                assert("0x"@ =~= seq!['0', 'x']);
            }
            let mut text = String::from_str("0x");
            number::push_hexadecimal(&mut text, num);
            text
        },
        NumberStyle::Decimal => {
            let mut text = String::new();
            number::push_decimal(&mut text, num);
            assert(text@ =~= number::decimal_digits(num as nat));
            text
        },
    }
}

pub fn format_usize(num: usize, style: NumberStyle) -> (r: String)
    ensures
        r@ == formatted(num as nat, style),
{
    format_u64(num as u64, style)
}

/// What a text says as a number: hexadecimal behind `0x` or `0X`, decimal
/// otherwise; nothing where it is no numeral.
pub open spec fn parsed(text: Seq<char>) -> Option<nat> {
    if text.len() >= 2 && text[0] == '0' && (text[1] == 'x' || text[1] == 'X') {
        number::numeral(text.subrange(2, text.len() as int), 16)
    } else {
        number::numeral(text, 10)
    }
}

/// Reads a number: hexadecimal behind `0x` or `0X`, decimal otherwise. Fails
/// where the text is no numeral or the number does not fit.
pub fn parse_as_u64(text: &str) -> (r: Result<u64, std::num::ParseIntError>)
    ensures
        r is Ok <==> (parsed(text@) matches Some(n) && n <= u64::MAX),
        r matches Ok(n) ==> parsed(text@) == Some(n as nat),
{
    let len = text.unicode_len();
    if len >= 2 && text.get_char(0) == '0' && (text.get_char(1) == 'x' || text.get_char(1) == 'X') {
        number::u64_from_str_radix(text.substring_char(2, len), 16)
    } else {
        number::u64_from_str_radix(text, 10)
    }
}

/// Reads a number as `parse_as_u64` does, into a `usize`.
pub fn parse_as_usize(text: &str) -> (r: Result<usize, std::num::ParseIntError>)
    ensures
        r is Ok <==> (parsed(text@) matches Some(n) && n <= usize::MAX),
        r matches Ok(n) ==> parsed(text@) == Some(n as nat),
{
    let len = text.unicode_len();
    if len >= 2 && text.get_char(0) == '0' && (text.get_char(1) == 'x' || text.get_char(1) == 'X') {
        number::usize_from_str_radix(text.substring_char(2, len), 16)
    } else {
        number::usize_from_str_radix(text, 10)
    }
}

} // verus!
