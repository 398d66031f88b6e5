use vstd::prelude::*;

use sparse_merkle_tree::blake2b::Blake2bHasher;
use sparse_merkle_tree::default_store::DefaultStore;
use sparse_merkle_tree::{MerkleProof, SparseMerkleTree, H256};

use crate::merkle::{all_zero, Hash256};

verus! {

#[verifier::external_type_specification]
#[verifier::external_body]
#[verifier::reject_recursive_types(H)]
#[verifier::reject_recursive_types(V)]
#[verifier::reject_recursive_types(S)]
pub struct ExSparseMerkleTree<H, V, S>(SparseMerkleTree<H, V, S>);

#[verifier::external_type_specification]
#[verifier::external_body]
pub struct ExH256(H256);

#[verifier::external_type_specification]
#[verifier::external_body]
pub struct ExBlake2bHasher(Blake2bHasher);

#[verifier::external_type_specification]
#[verifier::external_body]
#[verifier::reject_recursive_types(V)]
pub struct ExDefaultStore<V>(DefaultStore<V>);

#[verifier::external_type_specification]
#[verifier::external_body]
pub struct ExMerkleProof(MerkleProof);

/// The global state tree: a sparse Merkle tree over 32-byte keys and
/// 32-byte values, kept in memory.
pub type GlobalStates = SparseMerkleTree<Blake2bHasher, H256, DefaultStore<H256>>;

/// A proof-layer failure, fatal to the command being proved: the
/// command's derived cell keys collide, so one multiproof cannot
/// cover them.
#[derive(Debug, PartialEq, Eq, Clone, Copy, Structural)]
pub enum TreeError {
    DuplicateKey,
}

/// The key space and value space of the tree's leaves: 32-byte keys
/// mapped to 32-byte values.
pub type LeafMap = Map<Seq<u8>, Seq<u8>>;

/// The leaf map held by a tree.
pub uninterp spec fn smt_contents(t: GlobalStates) -> LeafMap;

/// That `p` is the multiproof the tree algorithm builds over `keys`
/// from the leaf map `m`.  One (m, keys) pair determines the proof,
/// so anything true of every generating pair is true of the proof.
pub uninterp spec fn proof_built_over(p: MerkleProof, m: LeafMap, keys: Seq<Seq<u8>>) -> bool;

/// The serialized multiproof blob over the given (key, value) pairs:
/// a pure function of the leaf map the proof was built from and the
/// pairs, since proof building and compilation are deterministic.
pub uninterp spec fn compiled_of(m: LeafMap, pairs: Seq<(Seq<u8>, Seq<u8>)>) -> Seq<u8>;

/// The byte strings of a key list.
pub open spec fn keys_bytes(ks: Seq<Hash256>) -> Seq<Seq<u8>> {
    ks.map(|i: int, h: Hash256| h.bytes@)
}

/// The key byte strings of a pair list.
pub open spec fn pair_key_bytes(ps: Seq<(Hash256, Hash256)>) -> Seq<Seq<u8>> {
    ps.map(|i: int, kv: (Hash256, Hash256)| kv.0.bytes@)
}

/// The byte strings of a pair list.
pub open spec fn pairs_bytes(ps: Seq<(Hash256, Hash256)>) -> Seq<(Seq<u8>, Seq<u8>)> {
    ps.map(|i: int, kv: (Hash256, Hash256)| (kv.0.bytes@, kv.1.bytes@))
}

/// The leaf map of a tree that holds nothing.
pub open spec fn smt_empty() -> LeafMap {
    Map::empty()
}

/// The Merkle root commitment, a pure function of the leaf map.
pub uninterp spec fn smt_root_of(m: Map<Seq<u8>, Seq<u8>>) -> Seq<u8>;

/// Relies on SparseMerkleTree::default: a tree holding no leaves.
#[verifier::external_body]
pub fn smt_new() -> (r: GlobalStates)
    ensures
        smt_contents(r) == smt_empty(),
{
    SparseMerkleTree::default()
}

/// Relies on SparseMerkleTree::update: writes the value at the key,
/// deleting the leaf when the value is all zero.  With the in-memory
/// DefaultStore every store operation returns Ok, so update cannot
/// fail.
#[verifier::external_body]
pub fn smt_update(t: &mut GlobalStates, key: &Hash256, value: &Hash256)
    requires
        key.bytes@.len() == 32,
        value.bytes@.len() == 32,
    ensures
        smt_contents(*final(t)) == (if all_zero(value.bytes@) {
            smt_contents(*old(t)).remove(key.bytes@)
        } else {
            smt_contents(*old(t)).insert(key.bytes@, value.bytes@)
        }),
{
    let mut kb = [0u8; 32];
    kb.copy_from_slice(key.bytes.as_slice());
    let mut vb = [0u8; 32];
    vb.copy_from_slice(value.bytes.as_slice());
    t.update(H256::from(kb), H256::from(vb)).unwrap();
}

/// Relies on SparseMerkleTree::root: the root commitment of the
/// current leaf map.
#[verifier::external_body]
pub fn smt_root(t: &GlobalStates) -> (r: Hash256)
    ensures
        r.bytes@ == smt_root_of(smt_contents(*t)),
        r.bytes@.len() == 32,
{
    Hash256 { bytes: t.root().as_slice().to_vec() }
}

/// Relies on SparseMerkleTree::merkle_proof: builds a multiproof over
/// the given keys against the current leaves.  With the in-memory
/// DefaultStore and a non-empty list of distinct keys it neither
/// fails nor panics, so both are required here.
#[verifier::external_body]
pub(crate) fn smt_merkle_proof(t: &GlobalStates, keys: &Vec<Hash256>) -> (r: MerkleProof)
    requires
        keys@.len() > 0,
        forall|i: int| 0 <= i < keys@.len() ==> (#[trigger] keys@[i]).bytes@.len() == 32,
        forall|i: int, j: int|
            0 <= i < j < keys@.len() ==> (#[trigger] keys@[i]).bytes@ != (#[trigger] keys@[j]).bytes@,
    ensures
        proof_built_over(r, smt_contents(*t), keys_bytes(keys@)),
{
    let mut ks: Vec<H256> = Vec::new();
    for h in keys.iter() {
        let mut b = [0u8; 32];
        b.copy_from_slice(h.bytes.as_slice());
        ks.push(H256::from(b));
    }
    t.merkle_proof(ks).unwrap()
}

/// Relies on MerkleProof::compile: serializes the multiproof into the
/// blob the on-chain verifier consumes.  compile reads only the pair
/// count and the pair keys, never the values; handed the genuine
/// multiproof of a non-empty distinct key list and pairs carrying
/// exactly those keys, it neither fails nor panics, and its output is
/// determined by the generating leaf map and the pairs alone.
#[verifier::external_body]
pub(crate) fn proof_compile(p: MerkleProof, pairs: &Vec<(Hash256, Hash256)>) -> (r: Vec<u8>)
    requires
        pairs@.len() > 0,
        forall|i: int|
            0 <= i < pairs@.len() ==> (#[trigger] pairs@[i]).0.bytes@.len() == 32
                && pairs@[i].1.bytes@.len() == 32,
        forall|i: int, j: int|
            0 <= i < j < pairs@.len() ==> (#[trigger] pairs@[i]).0.bytes@ != (
            #[trigger] pairs@[j]).0.bytes@,
        exists|m: LeafMap| proof_built_over(p, m, pair_key_bytes(pairs@)),
    ensures
        forall|m: LeafMap|
            proof_built_over(p, m, pair_key_bytes(pairs@)) ==> r@ == compiled_of(
                m,
                pairs_bytes(pairs@),
            ),
{
    let mut ls: Vec<(H256, H256)> = Vec::new();
    for (k, v) in pairs.iter() {
        let mut kb = [0u8; 32];
        kb.copy_from_slice(k.bytes.as_slice());
        let mut vb = [0u8; 32];
        vb.copy_from_slice(v.bytes.as_slice());
        ls.push((H256::from(kb), H256::from(vb)));
    }
    p.compile(ls).unwrap().into()
}

} // verus!
