//! Names of change files: the hex text of a path's bytes.

use vstd::prelude::*;

verus! {

/// hex::FromHexError, the error of hex::decode, carried as an opaque value.
#[verifier::external_type_specification]
#[verifier::external_body]
pub struct ExFromHexError(hex::FromHexError);

/// The lowercase hex digit for `d < 16`.
pub open spec fn hex_digit(d: nat) -> char {
    if d < 10 {
        ((d + 0x30) as u32) as char
    } else {
        ((d + 0x57) as u32) as char
    }
}

/// Two lowercase hex digits for each byte, high half first.
pub open spec fn hex_text(b: Seq<u8>) -> Seq<char>
    decreases b.len(),
{
    if b.len() == 0 {
        seq![]
    } else {
        hex_text(b.drop_last()) + seq![hex_digit(b.last() as nat / 16), hex_digit(b.last() as nat % 16)]
    }
}

pub open spec fn is_hex_char(c: char) -> bool {
    ('0' <= c <= '9') || ('a' <= c <= 'f') || ('A' <= c <= 'F')
}

/// The value of a hex digit of either case.
pub open spec fn hex_value(c: char) -> nat {
    if '0' <= c <= '9' {
        (c as u32 - 0x30) as nat
    } else if 'a' <= c <= 'f' {
        (c as u32 - 0x57) as nat
    } else {
        (c as u32 - 0x37) as nat
    }
}

/// Text that hex decoding accepts: an even number of hex digits.
pub open spec fn is_hex_text(s: Seq<char>) -> bool {
    s.len() % 2 == 0 && forall|i: int| 0 <= i < s.len() ==> is_hex_char(#[trigger] s[i])
}

/// The bytes that hex text stands for, two digits each.
pub open spec fn unhex(s: Seq<char>) -> Seq<u8>
    decreases s.len(),
{
    if s.len() < 2 {
        seq![]
    } else {
        unhex(s.subrange(0, s.len() - 2)).push(
            (hex_value(s[s.len() - 2]) * 16 + hex_value(s[s.len() - 1])) as u8,
        )
    }
}

/// Relies on hex::encode: two lowercase digits per byte, high half first.
#[verifier::external_body]
pub(crate) fn encode_name(path: &Vec<u8>) -> (r: String)
    ensures
        r@ == hex_text(path@),
{
    hex::encode(path)
}

/// Relies on hex::decode: it accepts an even number of digits of either case
/// and gives one byte per pair; anything else is an error.
#[verifier::external_body]
pub(crate) fn decode_name(name: &str) -> (r: Result<Vec<u8>, hex::FromHexError>)
    ensures
        r.is_ok() == is_hex_text(name@),
        r.is_ok() ==> r.unwrap()@ == unhex(name@),
{
    hex::decode(name)
}

/// Hex text decodes back to the bytes it was made from.
pub proof fn lemma_unhex_hex(b: Seq<u8>)
    ensures
        hex_text(b).len() == 2 * b.len(),
        is_hex_text(hex_text(b)),
        unhex(hex_text(b)) == b,
    decreases b.len(),
{
    if b.len() > 0 {
        let b1 = b.drop_last();
        lemma_unhex_hex(b1);
        let h = hex_text(b);
        let x = b.last() as nat;
        assert(h.subrange(0, h.len() - 2) =~= hex_text(b1));
        assert(hex_value(hex_digit(x / 16)) == x / 16);
        assert(hex_value(hex_digit(x % 16)) == x % 16);
        assert(x == (x / 16) * 16 + x % 16);
        assert(unhex(h) =~= b1.push(b.last()));
        assert(b1.push(b.last()) =~= b);
        assert forall|i: int| 0 <= i < h.len() implies is_hex_char(#[trigger] h[i]) by {
            if i < h.len() - 2 {
                assert(h[i] == hex_text(b1)[i]);
            }
        }
    } else {
        assert(unhex(hex_text(b)) =~= b);
    }
}

} // verus!
