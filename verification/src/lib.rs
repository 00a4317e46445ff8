//! A commitment-and-witness scheme: byte blobs are represented on a ledger
//! by the root of a binary Merkle hash tree over their fixed-size chunks.
//! Holders of a blob can produce a compact inclusion proof for any chunk,
//! and the ledger verifies such a proof against the stored root before it
//! advances the commitment to the next state.
//!
//! `chunking` splits blobs into zero-padded chunks, `hashing` names the
//! digests the scheme relies on, `merkle` builds trees and generates and
//! verifies inclusion proofs, and `ledger` holds the per-account
//! commitment records and the witness-gated state transition.

pub mod chunking;
pub mod hashing;
pub mod ledger;
pub mod merkle;

use vstd::prelude::*;

verus! {

/// Bytewise equality of two byte slices.
pub fn bytes_eq(a: &[u8], b: &[u8]) -> (r: bool)
    ensures
        r == (a@ == b@),
{
    if a.len() != b.len() {
        assert(a@ != b@);
        return false;
    }
    let mut i: usize = 0;
    while i < a.len()
        invariant
            i <= a@.len(),
            a@.len() == b@.len(),
            forall|j: int| 0 <= j < i ==> a@[j] == b@[j],
        decreases a@.len() - i,
    {
        if a[i] != b[i] {
            assert(a@ != b@);
            return false;
        }
        i += 1;
    }
    assert(a@ =~= b@);
    true
}

/// Equality of two strings, by their characters.
pub fn str_eq(a: &str, b: &str) -> (r: bool)
    ensures
        r == (a@ == b@),
{
    let ab = a.as_bytes();
    let bb = b.as_bytes();
    let r = bytes_eq(ab, bb);
    proof {
        if ab@ == bb@ {
            vstd::utf8::encode_utf8_decode_utf8(a@);
            vstd::utf8::encode_utf8_decode_utf8(b@);
        }
    }
    r
}

} // verus!
