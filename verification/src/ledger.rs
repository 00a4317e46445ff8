use vstd::prelude::*;

use crate::chunking::{chunk_blob, lemma_spec_chunks_shape, spec_chunks};
use crate::hashing::sha256_of;
use crate::merkle::{fold_proof, proof_view, spec_root, spec_tree, MerkleTree};
use crate::str_eq;

verus! {

/// Ghost content of a commitment record: owner identifier, counter, and
/// the committed Merkle root.
pub struct StubView {
    pub owner: Seq<char>,
    pub lamports: u64,
    pub merkle_root: Seq<u8>,
}

/// Ledger-visible commitment record for one account: the account's data
/// blob is represented only by the root of its Merkle tree.
pub struct AccountStub {
    pub owner: String,
    pub lamports: u64,
    pub merkle_root: Vec<u8>,
}

impl View for AccountStub {
    type V = StubView;

    open spec fn view(&self) -> StubView {
        StubView { owner: self.owner@, lamports: self.lamports, merkle_root: self.merkle_root@ }
    }
}

impl AccountStub {
    /// A record with the given owner, counter, and committed root.
    pub fn new(owner: &str, lamports: u64, merkle_root: Vec<u8>) -> (s: AccountStub)
        ensures
            s@.owner == owner@,
            s@.lamports == lamports,
            s@.merkle_root == merkle_root@,
    {
        AccountStub { owner: owner.to_owned(), lamports, merkle_root }
    }
}

/// The failure conditions of a witness transition, each detected before
/// any mutation of the ledger.
#[derive(Clone, Copy, Debug, PartialEq, Eq, Structural)]
pub enum TxError {
    /// No commitment record is stored under the given account identifier.
    UnknownAccount,
    /// The supplied leaf index exceeds the chunk count of the supplied blob.
    IndexOutOfRange,
    /// The folded proof digest does not match the stored root.
    ProofVerificationFailed,
}

/// The mapping a ledger's entry sequence denotes: later entries override
/// earlier ones (entries with unique keys make the order irrelevant).
pub open spec fn stubs_map(s: Seq<(String, AccountStub)>) -> Map<Seq<char>, StubView>
    decreases s.len(),
{
    if s.len() == 0 {
        Map::empty()
    } else {
        stubs_map(s.drop_last()).insert(s.last().0@, s.last().1@)
    }
}

/// No two entries share an account identifier.
pub open spec fn keys_unique(s: Seq<(String, AccountStub)>) -> bool {
    forall|i: int, j: int| 0 <= i < j < s.len() ==> (#[trigger] s[i]).0@ != (#[trigger] s[j]).0@
}

/// A key is in the denoted mapping exactly when some entry carries it.
pub proof fn lemma_stubs_map_contains(s: Seq<(String, AccountStub)>, key: Seq<char>)
    ensures
        stubs_map(s).contains_key(key) <==> exists|i: int|
            0 <= i < s.len() && (#[trigger] s[i]).0@ == key,
    decreases s.len(),
{
    if s.len() > 0 {
        lemma_stubs_map_contains(s.drop_last(), key);
        if s.last().0@ == key {
            assert(s[s.len() - 1].0@ == key);
        } else if stubs_map(s).contains_key(key) {
            let i = choose|i: int| 0 <= i < s.drop_last().len() && (#[trigger] s.drop_last()[i]).0@
                == key;
            assert(s[i].0@ == key);
        } else {
            assert forall|i: int| 0 <= i < s.len() implies (#[trigger] s[i]).0@ != key by {
                if i < s.len() - 1 {
                    assert(s.drop_last()[i] == s[i]);
                }
            }
        }
    }
}

/// Under unique keys, the denoted mapping sends each entry's key to that
/// entry's record.
pub proof fn lemma_stubs_map_at(s: Seq<(String, AccountStub)>, i: int)
    requires
        keys_unique(s),
        0 <= i < s.len(),
    ensures
        stubs_map(s).contains_key(s[i].0@),
        stubs_map(s)[s[i].0@] == s[i].1@,
    decreases s.len(),
{
    if i == s.len() - 1 {
        assert(s.last() == s[i]);
    } else {
        assert(keys_unique(s.drop_last()));
        assert(s.drop_last()[i] == s[i]);
        lemma_stubs_map_at(s.drop_last(), i);
        assert(s.last().0@ != s[i].0@);
    }
}

/// Replacing the entry at `i` by one with the same key updates the denoted
/// mapping at that key alone.
pub proof fn lemma_stubs_map_update(s: Seq<(String, AccountStub)>, i: int, e: (String, AccountStub))
    requires
        keys_unique(s),
        0 <= i < s.len(),
        e.0@ == s[i].0@,
    ensures
        stubs_map(s.update(i, e)) == stubs_map(s).insert(e.0@, e.1@),
        keys_unique(s.update(i, e)),
    decreases s.len(),
{
    let u = s.update(i, e);
    assert(u.len() == s.len());
    assert forall|a: int, b: int| 0 <= a < b < u.len() implies (#[trigger] u[a]).0@ != (
    #[trigger] u[b]).0@ by {
        assert(s[a].0@ != s[b].0@);
    }
    if i == s.len() - 1 {
        assert(u.drop_last() =~= s.drop_last());
        assert(u.last() == e);
        assert(stubs_map(u) == stubs_map(s.drop_last()).insert(e.0@, e.1@));
        assert(stubs_map(s.drop_last()).insert(s.last().0@, s.last().1@).insert(e.0@, e.1@)
            =~= stubs_map(s.drop_last()).insert(e.0@, e.1@));
    } else {
        assert(keys_unique(s.drop_last()));
        assert(s.drop_last()[i] == s[i]);
        lemma_stubs_map_update(s.drop_last(), i, e);
        assert(u.drop_last() =~= s.drop_last().update(i, e));
        assert(u.last() == s.last());
        assert(stubs_map(u) == stubs_map(s.drop_last().update(i, e)).insert(
            s.last().0@,
            s.last().1@,
        ));
        assert(s.last().0@ != e.0@);
        assert(stubs_map(s.drop_last()).insert(e.0@, e.1@).insert(s.last().0@, s.last().1@)
            =~= stubs_map(s.drop_last()).insert(s.last().0@, s.last().1@).insert(e.0@, e.1@));
    }
}

/// The deterministic blob transform applied by a successful transition:
/// increment the first byte (wrapping), or append a single byte 1 to an
/// empty blob.
pub open spec fn next_blob(blob: Seq<u8>) -> Seq<u8> {
    if blob.len() == 0 {
        seq![1u8]
    } else {
        blob.update(0, (((blob[0] as int) + 1) % 256) as u8)
    }
}

/// The root the ledger stores after a successful transition on `blob`.
pub open spec fn transitioned_root(blob: Seq<u8>, cs: nat) -> Seq<u8> {
    spec_root(spec_tree(spec_chunks(next_blob(blob), cs)))
}

/// The ledger state: account identifiers mapped to commitment records.
pub struct ChainState {
    pub stubs: Vec<(String, AccountStub)>,
}

impl View for ChainState {
    type V = Map<Seq<char>, StubView>;

    open spec fn view(&self) -> Map<Seq<char>, StubView> {
        stubs_map(self.stubs@)
    }
}

impl ChainState {
    /// Entries carry pairwise distinct account identifiers.
    pub open spec fn wf(self) -> bool {
        keys_unique(self.stubs@)
    }

    /// An empty ledger.
    pub fn new() -> (c: ChainState)
        ensures
            c.wf(),
            c@ == Map::<Seq<char>, StubView>::empty(),
    {
        ChainState { stubs: Vec::new() }
    }

    /// Position of the entry keyed by `pubkey`, if any.
    fn find(&self, pubkey: &str) -> (r: Option<usize>)
        ensures
            match r {
                Some(i) => i < self.stubs@.len() && self.stubs@[i as int].0@ == pubkey@,
                None => forall|i: int|
                    0 <= i < self.stubs@.len() ==> (#[trigger] self.stubs@[i]).0@ != pubkey@,
            },
    {
        let mut i: usize = 0;
        while i < self.stubs.len()
            invariant
                i <= self.stubs@.len(),
                forall|j: int| 0 <= j < i ==> (#[trigger] self.stubs@[j]).0@ != pubkey@,
            decreases self.stubs@.len() - i,
        {
            if str_eq(self.stubs[i].0.as_str(), pubkey) {
                return Some(i);
            }
            i += 1;
        }
        None
    }

    /// Store `stub` under `pubkey`, replacing any record already there.
    pub fn put_stub(&mut self, pubkey: &str, stub: AccountStub)
        requires
            old(self).wf(),
        ensures
            final(self).wf(),
            final(self)@ == old(self)@.insert(pubkey@, stub@),
    {
        let entry = (pubkey.to_owned(), stub);
        match self.find(pubkey) {
            Some(i) => {
                proof {
                    lemma_stubs_map_update(self.stubs@, i as int, entry);
                }
                self.stubs[i] = entry;
            },
            None => {
                let ghost before = self.stubs@;
                self.stubs.push(entry);
                proof {
                    assert(self.stubs@.drop_last() =~= before);
                    assert(self.stubs@.last() == entry);
                    assert forall|a: int, b: int| 0 <= a < b < self.stubs@.len() implies (
                    #[trigger] self.stubs@[a]).0@ != (#[trigger] self.stubs@[b]).0@ by {
                        if b < self.stubs@.len() - 1 {
                            assert(before[a].0@ != before[b].0@);
                        } else {
                            assert(before[a].0@ != pubkey@);
                        }
                    }
                }
            },
        }
    }

    /// The record stored under `pubkey`, if any.
    pub fn get_stub(&self, pubkey: &str) -> (r: Option<&AccountStub>)
        requires
            self.wf(),
        ensures
            match r {
                Some(s) => self@.contains_key(pubkey@) && s@ == self@[pubkey@],
                None => !self@.contains_key(pubkey@),
            },
    {
        proof {
            lemma_stubs_map_contains(self.stubs@, pubkey@);
        }
        match self.find(pubkey) {
            Some(i) => {
                proof {
                    lemma_stubs_map_at(self.stubs@, i as int);
                }
                Some(&self.stubs[i].1)
            },
            None => None,
        }
    }

    /// Witness-gated state transition. Look up the record for `pubkey`;
    /// chunk `blob`; verify the supplied proof for the chunk at
    /// `proof_for_index` against the stored root; on success, derive the
    /// next blob deterministically, rebuild the tree, and replace the
    /// stored record by one with the same owner and counter but the new
    /// root. On any failure the ledger is left unchanged.
    pub fn process_tx_witness(
        &mut self,
        pubkey: &str,
        blob: &[u8],
        chunk_size: usize,
        proof_for_index: usize,
        pf: &Vec<(Vec<u8>, bool)>,
    ) -> (r: Result<(), TxError>)
        requires
            old(self).wf(),
            chunk_size >= 1,
            blob@.len() <= usize::MAX / 2,
        ensures
            final(self).wf(),
            !old(self)@.contains_key(pubkey@) ==> r == Err::<(), TxError>(TxError::UnknownAccount)
                && final(self)@ == old(self)@,
            old(self)@.contains_key(pubkey@) && proof_for_index >= spec_chunks(
                blob@,
                chunk_size as nat,
            ).len() ==> r == Err::<(), TxError>(TxError::IndexOutOfRange) && final(self)@ == old(
                self,
            )@,
            old(self)@.contains_key(pubkey@) && proof_for_index < spec_chunks(
                blob@,
                chunk_size as nat,
            ).len() && fold_proof(
                sha256_of(spec_chunks(blob@, chunk_size as nat)[proof_for_index as int]),
                proof_view(pf@),
            ) != old(self)@[pubkey@].merkle_root ==> r == Err::<(), TxError>(
                TxError::ProofVerificationFailed,
            ) && final(self)@ == old(self)@,
            old(self)@.contains_key(pubkey@) && proof_for_index < spec_chunks(
                blob@,
                chunk_size as nat,
            ).len() && fold_proof(
                sha256_of(spec_chunks(blob@, chunk_size as nat)[proof_for_index as int]),
                proof_view(pf@),
            ) == old(self)@[pubkey@].merkle_root ==> r == Ok::<(), TxError>(()) && final(self)@
                == old(self)@.insert(
                pubkey@,
                (StubView {
                    owner: old(self)@[pubkey@].owner,
                    lamports: old(self)@[pubkey@].lamports,
                    merkle_root: transitioned_root(blob@, chunk_size as nat),
                }),
            ),
    {
        proof {
            lemma_stubs_map_contains(self.stubs@, pubkey@);
        }
        let i = match self.find(pubkey) {
            Some(i) => i,
            None => {
                return Err(TxError::UnknownAccount);
            },
        };
        proof {
            lemma_stubs_map_at(self.stubs@, i as int);
        }
        let ghost gchunks = spec_chunks(blob@, chunk_size as nat);
        let chunks = chunk_blob(blob, chunk_size);
        if proof_for_index >= chunks.len() {
            return Err(TxError::IndexOutOfRange);
        }
        proof {
            assert(chunks@[proof_for_index as int]@ =~= gchunks[proof_for_index as int]);
        }
        let ok = MerkleTree::verify_proof(
            chunks[proof_for_index].as_slice(),
            pf,
            &self.stubs[i].1.merkle_root,
        );
        if !ok {
            return Err(TxError::ProofVerificationFailed);
        }
        let mut new_blob = vstd::slice::slice_to_vec(blob);
        if new_blob.len() == 0 {
            new_blob.push(1u8);
        } else {
            let b0 = new_blob[0];
            let nb = if b0 == 255 {
                0u8
            } else {
                b0 + 1
            };
            new_blob[0] = nb;
        }
        assert(new_blob@ =~= next_blob(blob@));
        proof {
            lemma_spec_chunks_shape(new_blob@, chunk_size as nat);
        }
        let new_chunks = chunk_blob(new_blob.as_slice(), chunk_size);
        let new_tree = MerkleTree::from_chunks(new_chunks.as_slice());
        let new_root = new_tree.root();
        let owner = self.stubs[i].1.owner.clone();
        let lam = self.stubs[i].1.lamports;
        let key = self.stubs[i].0.clone();
        let ghost before = self.stubs@;
        let entry = (key, AccountStub { owner, lamports: lam, merkle_root: new_root });
        proof {
            lemma_stubs_map_update(before, i as int, entry);
        }
        self.stubs[i] = entry;
        Ok(())
    }
}

} // verus!
