//! The digest of a text and its hexadecimal form.

use crate::text::hex_digits;
use vstd::prelude::*;

verus! {

/// The MD5 digest of a byte string, as the `md5` crate computes it.
pub uninterp spec fn md5_digest(data: Seq<u8>) -> Seq<u8>;

/// `md5::compute`, which hashes the bytes given and returns the sixteen bytes
/// of their MD5 digest. The digest depends on those bytes alone.
#[verifier::external_body]
pub(crate) fn md5_of(data: &[u8]) -> (digest: [u8; 16])
    ensures
        digest@ == md5_digest(data@),
{
    md5::compute(data).0
}

/// The bytes in lower-case hexadecimal: two digits for each byte, the high
/// four bits first.
pub open spec fn lower_hex(data: Seq<u8>) -> Seq<char> {
    Seq::new(
        2 * data.len(),
        |i: int|
            if i % 2 == 0 {
                hex_digits()[data[i / 2] as int / 16]
            } else {
                hex_digits()[data[i / 2] as int % 16]
            },
    )
}

/// The digit for four bits.
fn hex_digit(nibble: u8) -> (digit: char)
    requires
        nibble < 16,
    ensures
        digit == hex_digits()[nibble as int],
{
    let digits: [char; 16] = [
        '0', '1', '2', '3', '4', '5', '6', '7', '8', '9', 'a', 'b', 'c', 'd', 'e', 'f',
    ];
    digits[nibble as usize]
}

/// Writes bytes in lower-case hexadecimal.
pub fn to_lower_hex(data: &[u8]) -> (hex: String)
    ensures
        hex@ == lower_hex(data@),
{
    let mut hex = String::new();
    let mut i: usize = 0;
    while i < data.len()
        invariant
            i <= data.len(),
            hex@ == lower_hex(data@.take(i as int)),
        decreases data.len() - i,
    {
        let byte: u8 = data[i];
        hex.push(hex_digit(byte / 16));
        hex.push(hex_digit(byte % 16));
        proof {
            assert(hex@ =~= lower_hex(data@.take(i + 1)));
        }
        i += 1;
    }
    proof {
        assert(data@.take(data.len() as int) =~= data@);
    }
    hex
}

} // verus!
