//! Sharing a library: the identity code a joiner sends to a home's owner.

use vstd::prelude::*;

use crate::text::digit;

verus! {

/// The lowercase hex digit for `d < 16`.
pub open spec fn hex_digit(d: nat) -> char {
    if d < 10 {
        digit(d)
    } else if d == 10 {
        'a'
    } else if d == 11 {
        'b'
    } else if d == 12 {
        'c'
    } else if d == 13 {
        'd'
    } else if d == 14 {
        'e'
    } else {
        'f'
    }
}

/// Bytes as lowercase hex: two digits per byte, high nibble first.
pub open spec fn hex_text(bytes: Seq<u8>) -> Seq<char>
    decreases bytes.len(),
{
    if bytes.len() == 0 {
        Seq::empty()
    } else {
        hex_text(bytes.drop_last()) + seq![
            hex_digit((bytes.last() / 16) as nat),
            hex_digit((bytes.last() % 16) as nat),
        ]
    }
}

/// `hex::encode`: each byte as two lowercase hex digits, high nibble first, in
/// order (the crate maps each byte through its lowercase table
/// `0123456789abcdef`, `byte >> 4` then `byte & 0x0F`).
#[verifier::external_body]
fn hex_encode(bytes: &[u8]) -> (r: String)
    ensures
        r@ == hex_text(bytes@),
{
    hex::encode(bytes)
}

/// This device's identity code for its public key: the key as lowercase hex.
/// A joiner sends it to a home's owner out of band so the owner can invite
/// them.
pub fn identity_code(public_key: &[u8]) -> (r: String)
    ensures
        r@ == hex_text(public_key@),
        r@.len() == 2 * public_key@.len(),
{
    proof {
        lemma_hex_len(public_key@);
    }
    hex_encode(public_key)
}

proof fn lemma_hex_len(bytes: Seq<u8>)
    ensures
        hex_text(bytes).len() == 2 * bytes.len(),
    decreases bytes.len(),
{
    if bytes.len() > 0 {
        lemma_hex_len(bytes.drop_last());
    }
}

} // verus!
