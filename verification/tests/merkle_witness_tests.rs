use merkle_witness::chunking::chunk_blob;
use merkle_witness::hashing::h;
use merkle_witness::ledger::{AccountStub, ChainState, TxError};
use merkle_witness::merkle::MerkleTree;
use merkle_witness::{bytes_eq, str_eq};

#[test]
fn chunking_exact_and_padded() {
    let chunks = chunk_blob(b"abc", 2);
    assert_eq!(chunks, vec![b"ab".to_vec(), vec![b'c', 0u8]]);
    let chunks = chunk_blob(b"abcd", 2);
    assert_eq!(chunks, vec![b"ab".to_vec(), b"cd".to_vec()]);
}

#[test]
fn chunking_roundtrip_recovers_blob() {
    let blob = b"The quick brown fox jumps over the lazy dog".to_vec();
    let chunks = chunk_blob(&blob, 5);
    let mut rebuilt: Vec<u8> = Vec::new();
    for c in &chunks {
        assert_eq!(c.len(), 5);
        rebuilt.extend_from_slice(c);
    }
    rebuilt.truncate(blob.len());
    assert_eq!(rebuilt, blob);
}

#[test]
fn chunking_empty_blob_single_zero_chunk() {
    let chunks = chunk_blob(b"", 8);
    assert_eq!(chunks, vec![vec![0u8; 8]]);
}

#[test]
fn empty_blob_tree_has_root_and_valid_proof() {
    let chunks = chunk_blob(b"", 8);
    let tree = MerkleTree::from_chunks(&chunks);
    let root = tree.root();
    assert_eq!(root.len(), 32);
    let pf = tree.gen_proof(0);
    assert!(MerkleTree::verify_proof(&chunks[0], &pf, &root));
}

#[test]
fn single_chunk_root_is_chunk_digest() {
    let chunks = chunk_blob(b"0123456789abcdef0123456789abcdef", 32);
    assert_eq!(chunks.len(), 1);
    let tree = MerkleTree::from_chunks(&chunks);
    let expected = <sha2::Sha256 as sha2::Digest>::digest(&chunks[0]).to_vec();
    assert_eq!(tree.root(), expected);
}

#[test]
fn two_chunk_root_matches_manual_computation() {
    let blob = b"0123456789abcdef0123456789abcdefXYZ".to_vec();
    let chunks = chunk_blob(&blob, 32);
    assert_eq!(chunks.len(), 2);
    let left = <sha2::Sha256 as sha2::Digest>::digest(&chunks[0]);
    let right = <sha2::Sha256 as sha2::Digest>::digest(&chunks[1]);
    let mut cat = Vec::new();
    cat.extend_from_slice(&left);
    cat.extend_from_slice(&right);
    let expected = <sha2::Sha256 as sha2::Digest>::digest(&cat).to_vec();
    let tree = MerkleTree::from_chunks(&chunks);
    assert_eq!(tree.root(), expected);
}

#[test]
fn generated_proofs_verify_for_all_indices() {
    let blob: Vec<u8> = (0u8..200u8).collect();
    let chunks = chunk_blob(&blob, 16);
    let tree = MerkleTree::from_chunks(&chunks);
    let root = tree.root();
    for i in 0..chunks.len() {
        let pf = tree.gen_proof(i);
        assert!(MerkleTree::verify_proof(&chunks[i], &pf, &root));
    }
}

#[test]
fn tampered_chunk_fails_verification() {
    let blob: Vec<u8> = (0u8..96u8).collect();
    let chunks = chunk_blob(&blob, 16);
    let tree = MerkleTree::from_chunks(&chunks);
    let root = tree.root();
    for i in 0..chunks.len() {
        let pf = tree.gen_proof(i);
        for byte in 0..chunks[i].len() {
            let mut tampered = chunks[i].clone();
            tampered[byte] ^= 1;
            assert!(!MerkleTree::verify_proof(&tampered, &pf, &root));
        }
    }
}

#[test]
fn proof_for_one_index_rejects_other_chunks() {
    let blob: Vec<u8> = (10u8..170u8).collect();
    let chunks = chunk_blob(&blob, 20);
    let tree = MerkleTree::from_chunks(&chunks);
    let root = tree.root();
    for i in 0..chunks.len() {
        let pf = tree.gen_proof(i);
        for j in 0..chunks.len() {
            if i != j {
                assert!(!MerkleTree::verify_proof(&chunks[j], &pf, &root));
            }
        }
    }
}

#[test]
fn three_chunks_pad_to_four_by_duplicating_last_leaf() {
    let blob: Vec<u8> = (0u8..48u8).collect();
    let chunks = chunk_blob(&blob, 16);
    assert_eq!(chunks.len(), 3);
    let tree = MerkleTree::from_chunks(&chunks);
    assert_eq!(tree.layers[0].len(), 4);
    assert_eq!(tree.layers[0][3], tree.layers[0][2]);
    let root = tree.root();
    for i in 0..3 {
        let pf = tree.gen_proof(i);
        assert!(MerkleTree::verify_proof(&chunks[i], &pf, &root));
    }
    // The padded position holds a copy of the last real leaf, so its proof
    // verifies against the last real chunk's bytes.
    let pf = tree.gen_proof(3);
    assert!(MerkleTree::verify_proof(&chunks[2], &pf, &root));
}

#[test]
fn witness_transition_end_to_end() {
    let blob: Vec<u8> = (0u8..160u8).collect();
    let chunk_size = 32;
    let chunks = chunk_blob(&blob, chunk_size);
    assert_eq!(chunks.len(), 5);
    let tree = MerkleTree::from_chunks(&chunks);
    let root = tree.root();

    let mut chain = ChainState::new();
    chain.put_stub("A", AccountStub::new("owner_pubkey_1", 1_000, root.clone()));
    assert_eq!(chain.get_stub("A").unwrap().merkle_root, root);

    let pf = tree.gen_proof(0);
    let r = chain.process_tx_witness("A", &blob, chunk_size, 0, &pf);
    assert_eq!(r, Ok(()));

    let stub = chain.get_stub("A").unwrap();
    assert_ne!(stub.merkle_root, root);
    assert_eq!(stub.owner, "owner_pubkey_1");
    assert_eq!(stub.lamports, 1_000);

    // The old proof no longer matches the advanced root.
    let r = chain.process_tx_witness("A", &blob, chunk_size, 0, &pf);
    assert_eq!(r, Err(TxError::ProofVerificationFailed));
}

#[test]
fn transition_advances_root_to_mutated_blob_tree() {
    let blob = b"witness scheme demo blob".to_vec();
    let chunk_size = 8;
    let chunks = chunk_blob(&blob, chunk_size);
    let tree = MerkleTree::from_chunks(&chunks);
    let root = tree.root();

    let mut chain = ChainState::new();
    chain.put_stub("acct", AccountStub::new("own", 7, root.clone()));
    let pf = tree.gen_proof(2);
    assert_eq!(chain.process_tx_witness("acct", &blob, chunk_size, 2, &pf), Ok(()));

    let mut new_blob = blob.clone();
    new_blob[0] = new_blob[0].wrapping_add(1);
    let new_tree = MerkleTree::from_chunks(&chunk_blob(&new_blob, chunk_size));
    assert_eq!(chain.get_stub("acct").unwrap().merkle_root, new_tree.root());
}

#[test]
fn unknown_account_is_rejected_without_mutation() {
    let blob = b"some blob".to_vec();
    let chunks = chunk_blob(&blob, 4);
    let tree = MerkleTree::from_chunks(&chunks);
    let pf = tree.gen_proof(0);
    let mut chain = ChainState::new();
    assert_eq!(
        chain.process_tx_witness("missing", &blob, 4, 0, &pf),
        Err(TxError::UnknownAccount)
    );
    assert!(chain.get_stub("missing").is_none());
}

#[test]
fn out_of_range_index_is_rejected() {
    let blob = b"0123456789".to_vec();
    let chunks = chunk_blob(&blob, 4);
    assert_eq!(chunks.len(), 3);
    let tree = MerkleTree::from_chunks(&chunks);
    let root = tree.root();
    let pf = tree.gen_proof(0);
    let mut chain = ChainState::new();
    chain.put_stub("A", AccountStub::new("o", 1, root.clone()));
    assert_eq!(
        chain.process_tx_witness("A", &blob, 4, 3, &pf),
        Err(TxError::IndexOutOfRange)
    );
    assert_eq!(chain.get_stub("A").unwrap().merkle_root, root);
}

#[test]
fn put_stub_replaces_existing_record() {
    let mut chain = ChainState::new();
    chain.put_stub("A", AccountStub::new("first", 1, vec![0u8; 32]));
    chain.put_stub("A", AccountStub::new("second", 2, vec![1u8; 32]));
    let stub = chain.get_stub("A").unwrap();
    assert_eq!(stub.owner, "second");
    assert_eq!(stub.lamports, 2);
    assert_eq!(stub.merkle_root, vec![1u8; 32]);
}

#[test]
fn short_hex_rendering_matches_full_encoding_prefix() {
    let chunks = chunk_blob(b"some digest source", 8);
    let digest = MerkleTree::from_chunks(&chunks).root();
    let full = hex::encode(&digest);
    assert_eq!(h(&digest), full[..16]);
    assert_eq!(h(&digest).len(), 16);
}

#[test]
fn byte_and_string_equality_helpers() {
    assert!(bytes_eq(b"abc", b"abc"));
    assert!(!bytes_eq(b"abc", b"abd"));
    assert!(!bytes_eq(b"abc", b"ab"));
    assert!(str_eq("pubkey-1", "pubkey-1"));
    assert!(!str_eq("pubkey-1", "pubkey-2"));
}
