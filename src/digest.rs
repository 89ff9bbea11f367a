use vstd::prelude::*;

verus! {

/// The lowercase hexadecimal MD5 digest of a byte sequence.
pub uninterp spec fn md5_hex_of(bytes: Seq<u8>) -> Seq<char>;

/// Relies on `md5::compute` and its `LowerHex` formatting: the digest is a
/// function of the bytes alone and prints as two hex digits per digest byte.
#[verifier::external_body]
pub(crate) fn digest_hex(bytes: &[u8]) -> (r: String)
    ensures
        r@ == md5_hex_of(bytes@),
        r@.len() == 32,
{
    format!("{:x}", md5::compute(bytes))
}

/// The digest of `bytes`, as an uploader sends it beside a chunk.
pub fn digest(bytes: &[u8]) -> (r: String)
    ensures
        r@ == md5_hex_of(bytes@),
        r@.len() == 32,
{
    digest_hex(bytes)
}

/// Whether `claimed` is the digest of `bytes`.
pub fn digest_matches(bytes: &[u8], claimed: &String) -> (r: bool)
    ensures
        r == (md5_hex_of(bytes@) == claimed@),
{
    let computed = digest_hex(bytes);
    computed == *claimed
}

} // verus!
