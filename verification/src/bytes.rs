//! Big-endian integers and UTF-8 text as they lie in a disc image.

use byteorder::{BigEndian, ByteOrder};
use vstd::arithmetic::div_mod::lemma_fundamental_div_mod_converse;
use vstd::prelude::*;
use vstd::utf8::{decode_utf8, encode_utf8, valid_utf8};

verus! {

/// The number spelled by the first three bytes of `b`, most significant first.
pub open spec fn be24(b: Seq<u8>) -> int
    recommends
        b.len() >= 3,
{
    b[0] as int * 0x1_0000 + b[1] as int * 0x100 + b[2] as int
}

/// The number spelled by the first four bytes of `b`, most significant first.
pub open spec fn be32(b: Seq<u8>) -> int
    recommends
        b.len() >= 4,
{
    b[0] as int * 0x100_0000 + b[1] as int * 0x1_0000 + b[2] as int * 0x100 + b[3] as int
}

/// The low `width` bytes of `n`, most significant first.
pub open spec fn be_bytes(n: int, width: nat) -> Seq<u8>
    decreases width,
{
    if width == 0 {
        Seq::empty()
    } else {
        be_bytes(n / 256, (width - 1) as nat).push((n % 256) as u8)
    }
}

/// `be_bytes` has the width it was asked for.
pub proof fn lemma_be_bytes_len(n: int, width: nat)
    ensures
        be_bytes(n, width).len() == width,
    decreases width,
{
    if width > 0 {
        lemma_be_bytes_len(n / 256, (width - 1) as nat);
    }
}

/// The three low bytes of a number, written out.
pub proof fn lemma_be_bytes_3(n: int)
    ensures
        be_bytes(n, 3) =~= seq![
            (n / 256 / 256 % 256) as u8,
            (n / 256 % 256) as u8,
            (n % 256) as u8,
        ],
{
    reveal_with_fuel(be_bytes, 4);
}

/// The four low bytes of a number, written out.
pub proof fn lemma_be_bytes_4(n: int)
    ensures
        be_bytes(n, 4) =~= seq![
            (n / 256 / 256 / 256 % 256) as u8,
            (n / 256 / 256 % 256) as u8,
            (n / 256 % 256) as u8,
            (n % 256) as u8,
        ],
{
    reveal_with_fuel(be_bytes, 5);
}

/// Reading back three written bytes gives the number, cut to 24 bits.
pub proof fn lemma_be24_of_bytes(n: int)
    requires
        n >= 0,
    ensures
        be24(be_bytes(n, 3)) == n % 0x100_0000,
{
    lemma_be_bytes_3(n);
    let n1 = n / 256;
    let n2 = n1 / 256;
    let n3 = n2 / 256;
    let low = (n2 % 256) * 0x1_0000 + (n1 % 256) * 0x100 + n % 256;
    assert(n == n3 * 0x100_0000 + low);
    lemma_fundamental_div_mod_converse(n, 0x100_0000, n3, low);
}

/// Reading back four written bytes gives the number, cut to 32 bits.
pub proof fn lemma_be32_of_bytes(n: int)
    requires
        n >= 0,
    ensures
        be32(be_bytes(n, 4)) == n % 0x1_0000_0000,
{
    lemma_be_bytes_4(n);
    let n1 = n / 256;
    let n2 = n1 / 256;
    let n3 = n2 / 256;
    let n4 = n3 / 256;
    let low = (n3 % 256) * 0x100_0000 + (n2 % 256) * 0x1_0000 + (n1 % 256) * 0x100 + n % 256;
    assert(n == n4 * 0x1_0000_0000 + low);
    lemma_fundamental_div_mod_converse(n, 0x1_0000_0000, n4, low);
}

/// Writing the number that three bytes spell gives those bytes again.
pub proof fn lemma_bytes_of_be24(b: Seq<u8>)
    requires
        b.len() == 3,
    ensures
        be_bytes(be24(b), 3) =~= b,
{
    let n = be24(b);
    lemma_be_bytes_3(n);
    let n1 = b[0] as int * 0x100 + b[1] as int;
    lemma_fundamental_div_mod_converse(n, 256, n1, b[2] as int);
    lemma_fundamental_div_mod_converse(n1, 256, b[0] as int, b[1] as int);
    lemma_fundamental_div_mod_converse(b[0] as int, 256, 0, b[0] as int);
}

/// Writing the number that four bytes spell gives those bytes again.
pub proof fn lemma_bytes_of_be32(b: Seq<u8>)
    requires
        b.len() == 4,
    ensures
        be_bytes(be32(b), 4) =~= b,
{
    let n = be32(b);
    lemma_be_bytes_4(n);
    let n1 = b[0] as int * 0x1_0000 + b[1] as int * 0x100 + b[2] as int;
    let n2 = b[0] as int * 0x100 + b[1] as int;
    lemma_fundamental_div_mod_converse(n, 256, n1, b[3] as int);
    lemma_fundamental_div_mod_converse(n1, 256, n2, b[2] as int);
    lemma_fundamental_div_mod_converse(n2, 256, b[0] as int, b[1] as int);
    lemma_fundamental_div_mod_converse(b[0] as int, 256, 0, b[0] as int);
}

/// Reads a 24-bit big-endian number with `byteorder::BigEndian::read_u24`:
/// the value of the three bytes, the first one most significant.
#[verifier::external_body]
pub(crate) fn read_u24_be(bytes: &[u8]) -> (value: u32)
    requires
        bytes@.len() == 3,
    ensures
        value as int == be24(bytes@),
{
    BigEndian::read_u24(bytes)
}

/// Reads a 32-bit big-endian number with `byteorder::BigEndian::read_u32`:
/// the value of the four bytes, the first one most significant.
#[verifier::external_body]
pub(crate) fn read_u32_be(bytes: &[u8]) -> (value: u32)
    requires
        bytes@.len() == 4,
    ensures
        value as int == be32(bytes@),
{
    BigEndian::read_u32(bytes)
}

/// Decodes text with `String::from_utf8`: the text whose UTF-8 encoding the
/// bytes are, or nothing where they are no valid encoding.
#[verifier::external_body]
pub(crate) fn string_from_utf8(bytes: Vec<u8>) -> (text: Option<String>)
    ensures
        text is Some <==> valid_utf8(bytes@),
        text is Some ==> text->0@ == decode_utf8(bytes@),
{
    String::from_utf8(bytes).ok()
}

/// The 32-bit big-endian number at `at`.
pub fn u32_at(bytes: &[u8], at: usize) -> (value: u32)
    requires
        at + 4 <= bytes@.len(),
    ensures
        value as int == be32(bytes@.subrange(at as int, at + 4)),
{
    let len = bytes.len();
    assert(at + 4 <= len);
    read_u32_be(vstd::slice::slice_subrange(bytes, at, at + 4))
}

/// Writes the low `width` bytes of `num` to the end of `buf`, most significant first.
pub fn write_int_to_buffer(num: u64, buf: &mut Vec<u8>, width: usize)
    ensures
        final(buf)@ == old(buf)@ + be_bytes(num as int, width as nat),
    decreases width,
{
    if width > 0 {
        write_int_to_buffer(num / 256, buf, width - 1);
        buf.push((num % 256) as u8);
        assert(buf@ =~= old(buf)@ + be_bytes(num as int, width as nat));
    } else {
        assert(buf@ =~= old(buf)@ + be_bytes(num as int, width as nat));
    }
}

/// Whether two byte strings are the same.
pub fn bytes_eq(a: &[u8], b: &[u8]) -> (same: bool)
    ensures
        same == (a@ == b@),
{
    if a.len() != b.len() {
        return false;
    }
    let mut i: usize = 0;
    while i < a.len()
        invariant
            i <= a@.len(),
            a@.len() == b@.len(),
            a@.subrange(0, i as int) == b@.subrange(0, i as int),
        decreases a@.len() - i,
    {
        if a[i] != b[i] {
            return false;
        }
        assert(a@.subrange(0, i + 1) =~= a@.subrange(0, i as int).push(a@[i as int]));
        assert(b@.subrange(0, i + 1) =~= b@.subrange(0, i as int).push(b@[i as int]));
        i += 1;
    }
    assert(a@ =~= a@.subrange(0, i as int));
    assert(b@ =~= b@.subrange(0, i as int));
    true
}

/// The UTF-8 encoding of a text is that of its parts, one after the other.
pub proof fn lemma_encode_concat(a: Seq<char>, b: Seq<char>)
    ensures
        encode_utf8(a + b) == encode_utf8(a) + encode_utf8(b),
    decreases a.len(),
{
    if a.len() == 0 {
        assert(a + b =~= b);
        assert(encode_utf8(a) + encode_utf8(b) =~= encode_utf8(b));
    } else {
        lemma_encode_concat(a.drop_first(), b);
        assert((a + b).drop_first() =~= a.drop_first() + b);
        assert((a + b)[0] == a[0]);
        assert(encode_utf8(a + b) =~= encode_utf8(a) + encode_utf8(b));
    }
}

/// Texts with the same UTF-8 encoding are the same text.
pub proof fn lemma_encode_injective(a: Seq<char>, b: Seq<char>)
    requires
        encode_utf8(a) == encode_utf8(b),
    ensures
        a == b,
{
    vstd::utf8::encode_utf8_decode_utf8(a);
    vstd::utf8::encode_utf8_decode_utf8(b);
}

} // verus!

verus! {

/// Writes a 32-bit number with `byteorder::BigEndian::write_u32`: its four
/// bytes, the most significant first.
#[verifier::external_body]
pub(crate) fn u32_be_bytes(value: u32) -> (bytes: Vec<u8>)
    ensures
        bytes@ == be_bytes(value as int, 4),
{
    let mut bytes = vec![0u8; 4];
    BigEndian::write_u32(&mut bytes, value);
    bytes
}

/// `count` zero bytes.
pub open spec fn zeros(count: int) -> Seq<u8> {
    Seq::new(count as nat, |i: int| 0u8)
}

/// Appends `count` zero bytes to `out`.
pub fn push_zeros(out: &mut Vec<u8>, count: usize)
    ensures
        final(out)@ == old(out)@ + zeros(count as int),
{
    let mut i: usize = 0;
    while i < count
        invariant
            0 <= i <= count,
            out@ == old(out)@ + zeros(i as int),
        decreases count - i,
    {
        out.push(0);
        assert(out@ =~= old(out)@ + zeros(i + 1));
        i += 1;
    }
}

/// Appends the four big-endian bytes of `value` to `out`.
pub fn push_u32(out: &mut Vec<u8>, value: u32)
    ensures
        final(out)@ == old(out)@ + be_bytes(value as int, 4),
{
    let mut bytes = u32_be_bytes(value);
    out.append(&mut bytes);
}

/// The text that the bytes from `from` up to, not including, `to` are in
/// UTF-8, if they are.
pub fn text_at(bytes: &[u8], from: usize, to: usize) -> (text: Option<String>)
    requires
        from <= to <= bytes@.len(),
    ensures
        text is Some <==> valid_utf8(bytes@.subrange(from as int, to as int)),
        text matches Some(t) ==> encode_utf8(t@) == bytes@.subrange(from as int, to as int),
{
    let part = vstd::slice::slice_to_vec(vstd::slice::slice_subrange(bytes, from, to));
    let text = string_from_utf8(part);
    proof {
        if text is Some {
            vstd::utf8::decode_utf8_encode_utf8(bytes@.subrange(from as int, to as int));
        }
    }
    text
}

/// Putting byte strings one behind the other does not depend on the grouping.
pub proof fn lemma_concat_assoc(a: Seq<u8>, b: Seq<u8>, c: Seq<u8>)
    ensures
        (a + b) + c == a + (b + c),
{
    assert((a + b) + c =~= a + (b + c));
}

} // verus!
