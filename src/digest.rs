use vstd::prelude::*;

verus! {

/// The lowercase hexadecimal BLAKE3 digest of a byte string, as ASCII bytes.
pub uninterp spec fn blake3_hex(data: Seq<u8>) -> Seq<u8>;

/// Relies on `blake3::hash` and `Hash::to_hex`: the 32-byte digest of the input,
/// written as 64 lowercase hexadecimal digits.
#[verifier::external_body]
pub fn blake3_hex_of(data: &[u8]) -> (r: Vec<u8>)
    ensures
        r@ == blake3_hex(data@),
        r@.len() == 64,
{
    blake3::hash(data).to_hex().as_bytes().to_vec()
}

} // verus!
