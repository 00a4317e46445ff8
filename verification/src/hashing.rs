use vstd::prelude::*;

verus! {

/// The SHA-256 digest of a byte sequence. The digest is a pure function of
/// the bytes alone; its value is not stated here, only named, so every fact
/// about concrete digests flows through `sha256` below.
pub uninterp spec fn sha256_of(data: Seq<u8>) -> Seq<u8>;

/// The lowercase hexadecimal rendering of a byte sequence, two digits per
/// byte; a pure function of the bytes alone.
pub uninterp spec fn hex_of(data: Seq<u8>) -> Seq<char>;

/// Relies on sha2::Sha256 (through digest::Digest::digest): a SHA-256 digest
/// is 32 bytes and depends on the input bytes alone.
#[verifier::external_body]
pub(crate) fn sha256(data: &[u8]) -> (r: Vec<u8>)
    ensures
        r@ == sha256_of(data@),
        r@.len() == 32,
{
    <sha2::Sha256 as sha2::Digest>::digest(data).to_vec()
}

/// Relies on hex::encode: the result is the lowercase hexadecimal rendering
/// of the input, two ASCII digits per byte, and depends on the input alone.
#[verifier::external_body]
fn hex_encode(data: &[u8]) -> (r: String)
    ensures
        r@ == hex_of(data@),
        r@.len() == 2 * data@.len(),
{
    hex::encode(data)
}

/// Short human-readable rendering of a 32-byte digest: the hexadecimal form
/// of its first 8 bytes (16 hex digits).
pub fn h(d: &Vec<u8>) -> (r: String)
    requires
        d@.len() == 32,
    ensures
        r@ == hex_of(d@.take(8)),
        r@.len() == 16,
{
    let mut prefix: Vec<u8> = Vec::new();
    let mut i: usize = 0;
    while i < 8
        invariant
            i <= 8,
            d@.len() == 32,
            prefix@ == d@.take(i as int),
        decreases 8 - i,
    {
        prefix.push(d[i]);
        assert(prefix@ =~= d@.take(i + 1));
        i += 1;
    }
    hex_encode(prefix.as_slice())
}

} // verus!
