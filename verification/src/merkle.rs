use vstd::prelude::*;

use crate::bytes_eq;
use crate::hashing::sha256_of;

verus! {

/// Digest of an internal node: the hash of the two children's digests,
/// left child first.
pub open spec fn node_hash(l: Seq<u8>, r: Seq<u8>) -> Seq<u8> {
    sha256_of(l + r)
}

/// One level of tree construction: hash each adjacent pair of digests.
pub open spec fn hash_pairs(layer: Seq<Seq<u8>>) -> Seq<Seq<u8>> {
    Seq::new(layer.len() / 2, |i: int| node_hash(layer[2 * i], layer[2 * i + 1]))
}

/// The digests of a sequence of chunks, in order.
pub open spec fn leaf_hashes(chunks: Seq<Seq<u8>>) -> Seq<Seq<u8>> {
    Seq::new(chunks.len(), |i: int| sha256_of(chunks[i]))
}

/// The smallest power of two that is at least `n`, reached by doubling `p`.
pub open spec fn next_pow2_from(p: nat, n: nat) -> nat
    decreases (if p < n {
        n - p
    } else {
        0
    }),
    when p >= 1
{
    if p >= n {
        p
    } else {
        next_pow2_from(2 * p, n)
    }
}

/// The smallest power of two that is at least `n` (and at least 1).
pub open spec fn next_pow2(n: nat) -> nat {
    next_pow2_from(1, n)
}

/// Whether `n` is a power of two.
pub open spec fn is_pow2(n: nat) -> bool
    decreases n,
{
    if n == 0 {
        false
    } else if n == 1 {
        true
    } else {
        n % 2 == 0 && is_pow2(n / 2)
    }
}

pub proof fn lemma_next_pow2_from(p: nat, n: nat)
    requires
        p >= 1,
        is_pow2(p),
    ensures
        next_pow2_from(p, n) >= n,
        next_pow2_from(p, n) >= p,
        is_pow2(next_pow2_from(p, n)),
        p < n ==> next_pow2_from(p, n) < 2 * n,
    decreases (if p < n {
        n - p
    } else {
        0
    }),
{
    if p < n {
        assert(is_pow2(2 * p)) by {
            assert((2 * p) % 2 == 0);
            assert((2 * p) / 2 == p);
        }
        lemma_next_pow2_from(2 * p, n);
    }
}

/// `next_pow2(n)` is a power of two, at least `n`, and below `2 * n`.
pub proof fn lemma_next_pow2(n: nat)
    requires
        n >= 1,
    ensures
        next_pow2(n) >= n,
        next_pow2(n) >= 1,
        is_pow2(next_pow2(n)),
        next_pow2(n) < 2 * n,
        is_pow2(n) ==> next_pow2(n) == n,
    decreases n,
{
    lemma_next_pow2_from(1, n);
    if n == 1 {
    } else if is_pow2(n) {
        lemma_pow2_exact(1, n);
    }
}

/// Doubling from a power of two `p` no greater than the power of two `n`
/// lands exactly on `n`.
proof fn lemma_pow2_exact(p: nat, n: nat)
    requires
        1 <= p <= n,
        is_pow2(p),
        is_pow2(n),
    ensures
        next_pow2_from(p, n) == n,
    decreases n - p,
{
    if p < n {
        assert(is_pow2(2 * p)) by {
            assert((2 * p) % 2 == 0);
            assert((2 * p) / 2 == p);
        }
        lemma_pow2_interval(p, n);
        lemma_pow2_exact(2 * p, n);
    }
}

/// There is no power of two strictly between `p` and `2 * p`, so a power of
/// two `n > p` is at least `2 * p`.
proof fn lemma_pow2_interval(p: nat, n: nat)
    requires
        1 <= p < n,
        is_pow2(p),
        is_pow2(n),
    ensures
        n >= 2 * p,
    decreases p,
{
    if p > 1 {
        lemma_pow2_interval(p / 2, n / 2);
    }
}

/// The layers of a Merkle tree over a base layer: the base, then each level
/// of pair hashes, up to the single root digest.
pub open spec fn build_layers(layer: Seq<Seq<u8>>) -> Seq<Seq<Seq<u8>>>
    decreases layer.len(),
{
    if layer.len() <= 1 {
        seq![layer]
    } else {
        seq![layer] + build_layers(hash_pairs(layer))
    }
}

/// The padded leaf layer over a chunk sequence: the chunk digests, extended
/// to the next power of two by duplicating the last digest.
pub open spec fn pad_leaves(leaves: Seq<Seq<u8>>) -> Seq<Seq<u8>> {
    Seq::new(
        next_pow2(leaves.len()),
        |i: int|
            if i < leaves.len() {
                leaves[i]
            } else {
                leaves.last()
            },
    )
}

/// The full layered Merkle tree over a chunk sequence.
pub open spec fn spec_tree(chunks: Seq<Seq<u8>>) -> Seq<Seq<Seq<u8>>> {
    build_layers(pad_leaves(leaf_hashes(chunks)))
}

/// The root digest of a layered tree: the single entry of the last layer.
pub open spec fn spec_root(layers: Seq<Seq<Seq<u8>>>) -> Seq<u8> {
    layers.last()[0]
}

/// Structural well-formedness of the layer sequence: at least one layer,
/// a single-digest root layer, and each layer above the base exactly the
/// pair hashes of the layer below (so lengths halve at each step).
pub open spec fn layers_wf(layers: Seq<Seq<Seq<u8>>>) -> bool {
    &&& layers.len() >= 1
    &&& layers.last().len() == 1
    &&& forall|k: int|
        0 <= k < layers.len() - 1 ==> (#[trigger] layers[k]).len() == 2 * layers[k + 1].len()
    &&& forall|k: int| 0 <= k < layers.len() - 1 ==> layers[k + 1] == hash_pairs(#[trigger] layers[k])
}

/// `build_layers` over a power-of-two base layer yields a well-formed tree
/// whose base is that layer.
pub proof fn lemma_build_layers_wf(layer: Seq<Seq<u8>>)
    requires
        is_pow2(layer.len()),
    ensures
        layers_wf(build_layers(layer)),
        build_layers(layer)[0] == layer,
    decreases layer.len(),
{
    let ls = build_layers(layer);
    if layer.len() <= 1 {
        assert(ls == seq![layer]);
        assert(ls.last() == layer);
    } else {
        let half = hash_pairs(layer);
        assert(layer.len() % 2 == 0);
        assert(is_pow2(half.len()));
        lemma_build_layers_wf(half);
        let rec = build_layers(half);
        assert(ls == seq![layer] + rec);
        assert(ls.len() == 1 + rec.len());
        assert(ls.last() == rec.last());
        assert forall|k: int| 0 <= k < ls.len() - 1 implies (#[trigger] ls[k]).len() == 2 * ls[k
            + 1].len() && ls[k + 1] == hash_pairs(ls[k]) by {
            if k == 0 {
                assert(ls[0] == layer);
                assert(ls[1] == rec[0]);
                assert(rec[0] == half);
            } else {
                assert(ls[k] == rec[k - 1]);
                assert(ls[k + 1] == rec[k]);
                assert(rec[k - 1].len() == 2 * rec[k].len());
                assert(rec[k] == hash_pairs(rec[k - 1]));
            }
        }
    }
}

/// The inclusion proof read off a layered tree for a path starting at
/// `idx` in the base layer: at each layer below the root, the sibling's
/// digest and whether that sibling sits to the left.
pub open spec fn spec_proof(layers: Seq<Seq<Seq<u8>>>, idx: int) -> Seq<(Seq<u8>, bool)>
    decreases layers.len(),
{
    if layers.len() == 0 || layers[0].len() <= 1 {
        Seq::empty()
    } else {
        let sib: int = if idx % 2 == 0 {
            idx + 1
        } else {
            idx - 1
        };
        seq![(layers[0][sib], sib < idx)] + spec_proof(layers.drop_first(), idx / 2)
    }
}

/// Folding a proof from a starting digest: hash (sibling ++ current) when
/// the sibling is flagged left, else (current ++ sibling), leaf to root.
pub open spec fn fold_proof(start: Seq<u8>, pf: Seq<(Seq<u8>, bool)>) -> Seq<u8>
    decreases pf.len(),
{
    if pf.len() == 0 {
        start
    } else {
        let step = if pf[0].1 {
            node_hash(pf[0].0, start)
        } else {
            node_hash(start, pf[0].0)
        };
        fold_proof(step, pf.drop_first())
    }
}

/// Folding one more proof entry appended at the end.
pub proof fn lemma_fold_proof_snoc(start: Seq<u8>, pf: Seq<(Seq<u8>, bool)>, e: (Seq<u8>, bool))
    ensures
        fold_proof(start, pf.push(e)) == (if e.1 {
            node_hash(e.0, fold_proof(start, pf))
        } else {
            node_hash(fold_proof(start, pf), e.0)
        }),
    decreases pf.len(),
{
    let whole = pf.push(e);
    if pf.len() == 0 {
        assert(whole[0] == e);
        assert(whole.drop_first() =~= Seq::<(Seq<u8>, bool)>::empty());
        let step0 = if e.1 {
            node_hash(e.0, start)
        } else {
            node_hash(start, e.0)
        };
        assert(fold_proof(start, whole) == fold_proof(step0, whole.drop_first()));
        assert(whole.drop_first().len() == 0);
        assert(fold_proof(step0, whole.drop_first()) == step0);
        assert(fold_proof(start, pf) == start);
    } else {
        assert(whole[0] == pf[0]);
        assert(whole.drop_first() =~= pf.drop_first().push(e));
        let step = if pf[0].1 {
            node_hash(pf[0].0, start)
        } else {
            node_hash(start, pf[0].0)
        };
        lemma_fold_proof_snoc(step, pf.drop_first(), e);
    }
}

/// Soundness of proof generation: folding the proof generated for any
/// position in the base layer of a well-formed tree reproduces the root.
pub proof fn lemma_fold_generated(layers: Seq<Seq<Seq<u8>>>, idx: int)
    requires
        layers_wf(layers),
        0 <= idx < layers[0].len(),
    ensures
        fold_proof(layers[0][idx], spec_proof(layers, idx)) == spec_root(layers),
    decreases layers.len(),
{
    if layers[0].len() <= 1 {
        assert(layers.len() == 1) by {
            if layers.len() >= 2 {
                assert(layers[0].len() == 2 * layers[1].len());
            }
        }
        assert(spec_proof(layers, idx) =~= Seq::<(Seq<u8>, bool)>::empty());
        assert(layers.last() == layers[0]);
    } else {
        assert(layers.len() >= 2) by {
            if layers.len() == 1 {
                assert(layers.last() == layers[0]);
            }
        }
        let len0 = layers[0].len();
        let rest = layers.drop_first();
        assert(len0 == 2 * layers[1].len());
        assert forall|k: int| 0 <= k < rest.len() - 1 implies (#[trigger] rest[k]).len() == 2
            * rest[k + 1].len() && rest[k + 1] == hash_pairs(rest[k]) by {
            assert(rest[k] == layers[k + 1]);
            assert(rest[k + 1] == layers[k + 2]);
        }
        assert(rest.last() == layers.last());
        assert(layers_wf(rest));
        let sib: int = if idx % 2 == 0 {
            idx + 1
        } else {
            idx - 1
        };
        assert(0 <= sib < len0);
        let start = layers[0][idx];
        let step = if sib < idx {
            node_hash(layers[0][sib], start)
        } else {
            node_hash(start, layers[0][sib])
        };
        assert(step == hash_pairs(layers[0])[idx / 2]) by {
            if idx % 2 == 0 {
                assert(2 * (idx / 2) == idx);
                assert(!(sib < idx));
            } else {
                assert(2 * (idx / 2) == idx - 1);
                assert(sib < idx);
            }
        }
        assert(rest[0] == layers[1]);
        assert(layers[1] == hash_pairs(layers[0]));
        assert(0 <= idx / 2 < rest[0].len());
        let pf = spec_proof(layers, idx);
        assert(pf == seq![(layers[0][sib], sib < idx)] + spec_proof(rest, idx / 2));
        assert(pf[0] == (layers[0][sib], sib < idx));
        assert(pf.drop_first() =~= spec_proof(rest, idx / 2));
        assert(fold_proof(start, pf) == fold_proof(step, spec_proof(rest, idx / 2)));
        lemma_fold_generated(rest, idx / 2);
        assert(spec_root(rest) == spec_root(layers));
    }
}

/// Every digest stored in the layer sequence is 32 bytes long.
pub open spec fn all_digests_32(layers: Seq<Seq<Seq<u8>>>) -> bool {
    forall|k: int, i: int|
        0 <= k < layers.len() && 0 <= i < layers[k].len() ==> (#[trigger] layers[k][i]).len() == 32
}

/// Shape of the padded leaf layer: power-of-two length, the real leaves as
/// a prefix, and the last real leaf duplicated across the padding entries.
pub proof fn lemma_pad_leaves_shape(leaves: Seq<Seq<u8>>)
    requires
        leaves.len() >= 1,
    ensures
        pad_leaves(leaves).len() == next_pow2(leaves.len()),
        is_pow2(pad_leaves(leaves).len()),
        pad_leaves(leaves).len() >= leaves.len(),
        pad_leaves(leaves).len() < 2 * leaves.len(),
        pad_leaves(leaves).take(leaves.len() as int) == leaves,
        forall|i: int|
            leaves.len() <= i < pad_leaves(leaves).len() ==> #[trigger] pad_leaves(leaves)[i]
                == leaves.last(),
{
    lemma_next_pow2(leaves.len());
    assert(pad_leaves(leaves).take(leaves.len() as int) =~= leaves);
}

/// The ghost contents of an inclusion proof: each entry a sibling digest
/// and whether that sibling sits to the left.
pub open spec fn proof_view(pf: Seq<(Vec<u8>, bool)>) -> Seq<(Seq<u8>, bool)> {
    Seq::new(pf.len(), |i: int| (pf[i].0@, pf[i].1))
}

/// Concatenation of two byte strings.
fn concat_bytes(a: &[u8], b: &[u8]) -> (r: Vec<u8>)
    ensures
        r@ == a@ + b@,
{
    let mut r: Vec<u8> = Vec::new();
    let mut i: usize = 0;
    while i < a.len()
        invariant
            i <= a@.len(),
            r@ =~= a@.take(i as int),
        decreases a@.len() - i,
    {
        r.push(a[i]);
        assert(r@ =~= a@.take(i + 1));
        i += 1;
    }
    assert(r@ =~= a@);
    let mut j: usize = 0;
    proof {
        assert(r@ =~= a@ + b@.take(0));
    }
    while j < b.len()
        invariant
            j <= b@.len(),
            r@ =~= a@ + b@.take(j as int),
        decreases b@.len() - j,
    {
        r.push(b[j]);
        assert(r@ =~= a@ + b@.take(j + 1));
        j += 1;
    }
    assert(r@ =~= a@ + b@);
    r
}

/// A binary Merkle hash tree over chunk digests, stored as its layers:
/// layer 0 is the padded leaf layer, the last layer holds the root alone.
pub struct MerkleTree {
    pub layers: Vec<Vec<Vec<u8>>>,
}

impl View for MerkleTree {
    type V = Seq<Seq<Seq<u8>>>;

    open spec fn view(&self) -> Seq<Seq<Seq<u8>>> {
        self.layers.deep_view()
    }
}

impl MerkleTree {
    /// A tree is well formed when its layers are structurally sound and
    /// every stored digest is 32 bytes.
    pub open spec fn wf(self) -> bool {
        layers_wf(self@) && all_digests_32(self@)
    }

    /// Build the tree over the given chunks: hash each chunk, pad the leaf
    /// layer to the next power of two by duplicating the last digest, then
    /// hash adjacent pairs layer by layer up to the root.
    pub fn from_chunks(chunks: &[Vec<u8>]) -> (t: MerkleTree)
        requires
            1 <= chunks@.len(),
            chunks@.len() <= usize::MAX / 2 + 1,
        ensures
            t.wf(),
            t@ == spec_tree(chunks.deep_view()),
            t@[0].len() == next_pow2(chunks@.len()),
    {
        let ghost gchunks = chunks.deep_view();
        let n = chunks.len();
        let mut leaves: Vec<Vec<u8>> = Vec::new();
        let mut i: usize = 0;
        while i < n
            invariant
                i <= n,
                n == gchunks.len(),
                gchunks == chunks.deep_view(),
                leaves.deep_view() =~~= leaf_hashes(gchunks).take(i as int),
                forall|k: int| 0 <= k < i ==> (#[trigger] leaves@[k])@.len() == 32,
            decreases n - i,
        {
            proof {
                assert(chunks@[i as int]@ =~= gchunks[i as int]);
            }
            let d = crate::hashing::sha256(chunks[i].as_slice());
            assert(d@ == leaf_hashes(gchunks)[i as int]);
            leaves.push(d);
            assert(leaves.deep_view() =~~= leaf_hashes(gchunks).take(i + 1));
            i += 1;
        }
        assert(leaves.deep_view() =~~= leaf_hashes(gchunks));
        let ghost gleaves = leaf_hashes(gchunks);
        proof {
            lemma_next_pow2(n as nat);
        }
        let mut pow: usize = 1;
        while pow < n
            invariant
                1 <= pow,
                n <= usize::MAX / 2 + 1,
                pow < 2 * (n as int) || pow == 1,
                is_pow2(pow as nat),
                next_pow2_from(pow as nat, n as nat) == next_pow2(n as nat),
            decreases 2 * (n as int) - pow,
        {
            assert(is_pow2((2 * pow) as nat)) by {
                assert(((2 * pow) as nat) % 2 == 0);
                assert(((2 * pow) as nat) / 2 == pow as nat);
            }
            pow = 2 * pow;
        }
        assert(pow as nat == next_pow2(n as nat));
        while leaves.len() < pow
            invariant
                n <= leaves@.len() <= pow,
                pow as nat == next_pow2(n as nat),
                n == gleaves.len(),
                1 <= n,
                leaves.deep_view() =~~= pad_leaves(gleaves).take(leaves@.len() as int),
                forall|k: int| 0 <= k < leaves@.len() ==> (#[trigger] leaves@[k])@.len() == 32,
            decreases pow - leaves@.len(),
        {
            let ghost before = leaves.deep_view();
            let last = vstd::slice::slice_to_vec(leaves[leaves.len() - 1].as_slice());
            assert(last@ =~= before[before.len() - 1]);
            assert(before[before.len() - 1] == pad_leaves(gleaves)[before.len() - 1]);
            assert(pad_leaves(gleaves)[before.len() - 1] == gleaves.last());
            assert(pad_leaves(gleaves)[before.len() as int] == gleaves.last());
            leaves.push(last);
            assert(leaves.deep_view() =~~= pad_leaves(gleaves).take(leaves@.len() as int));
        }
        assert(leaves.deep_view() =~~= pad_leaves(gleaves));
        let ghost padded = pad_leaves(gleaves);
        proof {
            lemma_pad_leaves_shape(gleaves);
        }
        let mut layers: Vec<Vec<Vec<u8>>> = Vec::new();
        layers.push(leaves);
        proof {
            assert(layers.deep_view() =~~= seq![padded]);
            assert(layers.deep_view().drop_last() =~~= Seq::<Seq<Seq<u8>>>::empty());
            assert(Seq::<Seq<Seq<u8>>>::empty() + build_layers(padded) =~~= build_layers(padded));
        }
        while layers[layers.len() - 1].len() > 1
            invariant
                layers@.len() >= 1,
                layers.deep_view().last().len() >= 1,
                is_pow2(layers.deep_view().last().len()),
                build_layers(padded) =~~= layers.deep_view().drop_last() + build_layers(
                    layers.deep_view().last(),
                ),
                forall|k: int, m: int|
                    0 <= k < layers@.len() && 0 <= m < layers@[k]@.len() ==> (
                    #[trigger] layers@[k]@[m])@.len() == 32,
            decreases layers.deep_view().last().len(),
        {
            let li = layers.len() - 1;
            let prev_len = layers[li].len();
            let ghost prev_dv = layers.deep_view().last();
            assert(prev_len % 2 == 0);
            let mut next: Vec<Vec<u8>> = Vec::new();
            let mut j: usize = 0;
            while j < prev_len / 2
                invariant
                    j <= prev_len / 2,
                    li == layers@.len() - 1,
                    layers@.len() >= 1,
                    prev_len == layers@[li as int]@.len(),
                    prev_len % 2 == 0,
                    prev_dv == layers.deep_view().last(),
                    prev_dv.len() == prev_len,
                    next.deep_view() =~~= hash_pairs(prev_dv).take(j as int),
                    forall|k: int, m: int|
                        0 <= k < layers@.len() && 0 <= m < layers@[k]@.len() ==> (
                        #[trigger] layers@[k]@[m])@.len() == 32,
                    forall|m: int| 0 <= m < j ==> (#[trigger] next@[m])@.len() == 32,
                decreases prev_len / 2 - j,
            {
                proof {
                    assert(layers@[li as int]@[2 * j as int]@ =~= prev_dv[2 * j as int]);
                    assert(layers@[li as int]@[2 * j + 1]@ =~= prev_dv[2 * j + 1]);
                }
                let data = concat_bytes(
                    layers[li][2 * j].as_slice(),
                    layers[li][2 * j + 1].as_slice(),
                );
                assert(data@ == prev_dv[2 * j as int] + prev_dv[2 * j + 1]);
                let hd = crate::hashing::sha256(data.as_slice());
                next.push(hd);
                assert(next.deep_view() =~~= hash_pairs(prev_dv).take(j + 1));
                j += 1;
            }
            assert(next.deep_view() =~~= hash_pairs(prev_dv));
            let ghost old_dv = layers.deep_view();
            layers.push(next);
            proof {
                assert(layers.deep_view() =~~= old_dv + seq![hash_pairs(prev_dv)]);
                assert(layers.deep_view().drop_last() =~~= old_dv);
                assert(layers.deep_view().last() == hash_pairs(prev_dv));
                assert(build_layers(prev_dv) == seq![prev_dv] + build_layers(hash_pairs(prev_dv)));
                assert(old_dv.drop_last() + build_layers(prev_dv) =~~= old_dv + build_layers(
                    hash_pairs(prev_dv),
                )) by {
                    assert(old_dv.last() == prev_dv);
                    assert(old_dv.drop_last().push(prev_dv) =~~= old_dv);
                    assert(old_dv.drop_last() + (seq![prev_dv] + build_layers(hash_pairs(prev_dv)))
                        =~~= (old_dv.drop_last() + seq![prev_dv]) + build_layers(
                        hash_pairs(prev_dv),
                    ));
                    assert(old_dv.drop_last() + seq![prev_dv] =~~= old_dv);
                }
                assert(is_pow2(hash_pairs(prev_dv).len())) by {
                    assert(prev_dv.len() % 2 == 0 && prev_dv.len() > 1);
                }
            }
        }
        let t = MerkleTree { layers };
        proof {
            assert(t@.last().len() == 1);
            assert(build_layers(t@.last()) == seq![t@.last()]);
            assert(t@.drop_last() + seq![t@.last()] =~~= t@);
            assert(t@ =~~= build_layers(padded));
            lemma_build_layers_wf(padded);
            assert(forall|k: int, i2: int|
                0 <= k < t@.len() && 0 <= i2 < t@[k].len() ==> (#[trigger] t@[k][i2]).len() == 32);
        }
        t
    }

    /// The root digest: the single entry of the last layer.
    pub fn root(&self) -> (r: Vec<u8>)
        requires
            self.wf(),
        ensures
            r@ == spec_root(self@),
            r@.len() == 32,
    {
        let li = self.layers.len() - 1;
        let r = vstd::slice::slice_to_vec(self.layers[li][0].as_slice());
        proof {
            assert(r@ =~= self@.last()[0]);
            assert(self@[li as int][0].len() == 32);
        }
        r
    }

    /// Generate the inclusion proof for a position in the padded leaf
    /// layer: walk the layers bottom-up, recording the sibling digest and
    /// whether it sits to the left, halving the index at each step.
    #[verifier::rlimit(50)]
    pub fn gen_proof(&self, leaf_index: usize) -> (pf: Vec<(Vec<u8>, bool)>)
        requires
            self.wf(),
            (leaf_index as int) < self@[0].len(),
        ensures
            proof_view(pf@) == spec_proof(self@, leaf_index as int),
            forall|i: int| 0 <= i < pf@.len() ==> (#[trigger] pf@[i]).0@.len() == 32,
    {
        let mut pf: Vec<(Vec<u8>, bool)> = Vec::new();
        let mut idx = leaf_index;
        let mut k: usize = 0;
        proof {
            assert(self@.skip(0) =~~= self@);
            assert(Seq::<(Seq<u8>, bool)>::empty() + spec_proof(self@, leaf_index as int)
                =~= spec_proof(self@, leaf_index as int));
            assert(proof_view(pf@) =~= Seq::<(Seq<u8>, bool)>::empty());
        }
        while self.layers[k].len() > 1
            invariant
                self.wf(),
                k < self@.len(),
                (idx as int) < self@[k as int].len(),
                spec_proof(self@, leaf_index as int) == proof_view(pf@) + spec_proof(
                    self@.skip(k as int),
                    idx as int,
                ),
                forall|i: int| 0 <= i < pf@.len() ==> (#[trigger] pf@[i]).0@.len() == 32,
            decreases self@.len() - k,
        {
            proof {
                if k == self@.len() - 1 {
                    assert(self@.last() == self@[k as int]);
                    assert(false);
                }
            }
            let sib = if idx % 2 == 0 {
                idx + 1
            } else {
                idx - 1
            };
            proof {
                assert(self@[k as int].len() == 2 * self@[k as int + 1].len());
                if idx % 2 == 0 && idx + 1 >= self@[k as int].len() {
                    assert(idx as int == self@[k as int].len() - 1);
                    assert(false);
                }
            }
            let sibling = vstd::slice::slice_to_vec(self.layers[k][sib].as_slice());
            proof {
                assert(sibling@ =~= self@[k as int][sib as int]);
            }
            let is_left = sib < idx;
            let ghost old_pf = pf@;
            pf.push((sibling, is_left));
            proof {
                let tail = self@.skip(k as int);
                assert(tail[0] == self@[k as int]);
                assert(tail.len() == self@.len() - k);
                assert(spec_proof(tail, idx as int) == seq![(tail[0][sib as int], (sib as int) < (
                idx as int))] + spec_proof(tail.drop_first(), idx as int / 2));
                assert(tail.drop_first() =~~= self@.skip(k + 1));
                assert(proof_view(pf@) =~= proof_view(old_pf) + seq![(tail[0][sib as int], (
                sib as int) < (idx as int))]);
                assert(proof_view(old_pf) + (seq![(tail[0][sib as int], (sib as int) < (idx as int))]
                    + spec_proof(self@.skip(k + 1), idx as int / 2)) =~= (proof_view(old_pf)
                    + seq![(tail[0][sib as int], (sib as int) < (idx as int))]) + spec_proof(
                    self@.skip(k + 1),
                    idx as int / 2,
                ));
            }
            idx = idx / 2;
            let nl = self.layers.len();
            assert(k < nl);
            k += 1;
        }
        proof {
            let tail = self@.skip(k as int);
            assert(tail[0] == self@[k as int]);
            assert(spec_proof(tail, idx as int) =~= Seq::<(Seq<u8>, bool)>::empty());
            assert(proof_view(pf@) + Seq::<(Seq<u8>, bool)>::empty() =~= proof_view(pf@));
        }
        pf
    }

    /// Verify an inclusion proof: hash the supplied chunk bytes, fold the
    /// proof entries leaf-to-root, and compare the result with the
    /// expected root digest, byte for byte.
    pub fn verify_proof(leaf_chunk: &[u8], pf: &Vec<(Vec<u8>, bool)>, expected_root: &Vec<u8>) -> (r:
        bool)
        ensures
            r == (fold_proof(sha256_of(leaf_chunk@), proof_view(pf@)) == expected_root@),
    {
        let mut computed = crate::hashing::sha256(leaf_chunk);
        let mut i: usize = 0;
        proof {
            assert(proof_view(pf@).take(0) =~= Seq::<(Seq<u8>, bool)>::empty());
        }
        while i < pf.len()
            invariant
                i <= pf@.len(),
                computed@ == fold_proof(sha256_of(leaf_chunk@), proof_view(pf@).take(i as int)),
            decreases pf@.len() - i,
        {
            let entry = &pf[i];
            let data = if entry.1 {
                concat_bytes(entry.0.as_slice(), computed.as_slice())
            } else {
                concat_bytes(computed.as_slice(), entry.0.as_slice())
            };
            let ghost prev = computed@;
            computed = crate::hashing::sha256(data.as_slice());
            proof {
                let pv = proof_view(pf@);
                assert(pv.take(i + 1) =~= pv.take(i as int).push(pv[i as int]));
                lemma_fold_proof_snoc(sha256_of(leaf_chunk@), pv.take(i as int), pv[i as int]);
                assert(pv[i as int] == (pf@[i as int].0@, pf@[i as int].1));
            }
            i += 1;
        }
        assert(proof_view(pf@).take(pf@.len() as int) =~= proof_view(pf@));
        bytes_eq(computed.as_slice(), expected_root.as_slice())
    }
}

/// Verification sees the supplied chunk only through its digest: two
/// chunks with equal digests verify or fail together against any proof
/// and root. (That a chunk with a *different* digest fails rests on the
/// collision resistance of the hash, which is outside what these
/// definitions state.)
pub proof fn lemma_verify_depends_on_digest(
    c1: Seq<u8>,
    c2: Seq<u8>,
    pf: Seq<(Seq<u8>, bool)>,
    root: Seq<u8>,
)
    requires
        sha256_of(c1) == sha256_of(c2),
    ensures
        (fold_proof(sha256_of(c1), pf) == root) == (fold_proof(sha256_of(c2), pf) == root),
{
}

/// Soundness of generation against verification, over the whole pipeline:
/// in the tree built from a non-empty chunk sequence, the proof generated
/// for any position of the padded leaf layer folds back to the root from
/// that position's digest; positions below the real chunk count carry the
/// digest of their chunk, padded positions carry the last chunk's digest.
pub proof fn lemma_generated_proof_verifies(chunks: Seq<Seq<u8>>, i: int)
    requires
        1 <= chunks.len(),
        0 <= i < spec_tree(chunks)[0].len(),
    ensures
        spec_tree(chunks)[0].len() == next_pow2(chunks.len()),
        fold_proof(spec_tree(chunks)[0][i], spec_proof(spec_tree(chunks), i)) == spec_root(
            spec_tree(chunks),
        ),
        i < chunks.len() ==> spec_tree(chunks)[0][i] == sha256_of(chunks[i]),
        chunks.len() <= i ==> spec_tree(chunks)[0][i] == sha256_of(chunks.last()),
{
    let leaves = leaf_hashes(chunks);
    let padded = pad_leaves(leaves);
    lemma_pad_leaves_shape(leaves);
    lemma_build_layers_wf(padded);
    assert(spec_tree(chunks)[0] == padded);
    lemma_fold_generated(spec_tree(chunks), i);
    if i < chunks.len() {
        assert(padded[i] == leaves[i]);
    } else {
        assert(padded[i] == leaves.last());
    }
}

} // verus!
