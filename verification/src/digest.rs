use vstd::prelude::*;

verus! {

/// The BLAKE3 hash of `data`, written as lower-case hexadecimal digits.
pub uninterp spec fn blake3_hex(data: Seq<u8>) -> Seq<char>;

/// Calls `blake3::hash` on the bytes and writes the hash as `Hash::to_hex`
/// gives it. Taken on trust, and nothing is claimed of the digits but that
/// they are the hash of these bytes: the same bytes give the same digits.
#[verifier::external_body]
pub(crate) fn content_hash(data: &[u8]) -> (id: String)
    ensures
        id@ == blake3_hex(data@),
{
    blake3::hash(data).to_hex().to_string()
}

} // verus!
