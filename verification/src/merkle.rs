//! The Merkle tree over the store's keys: each key's SHA-256 hash is a
//! leaf, the leaves in ascending key order.  Reads answer with the tree's
//! root, the hashes of the keys they return, their leaf positions and the
//! proof hashes, all in lowercase hex.
use vstd::prelude::*;
use rs_merkle::algorithms::Sha256;
use rs_merkle::{Hasher, MerkleTree};
use crate::constants::bytes_equal;
use crate::keyorder::{bytes_lt, lemma_lt_strict_total};
use crate::storage::engine::DiskClient;

verus! {

/// A tree of the `rs_merkle` crate over SHA-256 leaves.  Verus does not
/// take the crate's tree type with its hasher bound, so the tree is held
/// here, out of Verus's sight, and read only through the functions below.
#[verifier::external_body]
pub struct LeafTree {
    tree: MerkleTree<Sha256>,
}

/// The SHA-256 digest of the bytes.
pub uninterp spec fn sha256(data: Seq<u8>) -> Seq<u8>;

/// The leaves a tree was built from, in order.
pub uninterp spec fn merkle_leaves(tree: LeafTree) -> Seq<Seq<u8>>;

/// The root of the tree over these leaves, when the tree has one.
pub uninterp spec fn merkle_root(leaves: Seq<Seq<u8>>) -> Option<Seq<u8>>;

/// The hashes that prove the leaves at these positions, as
/// `MerkleTree::proof` lists them (left to right, bottom to top).
pub uninterp spec fn merkle_proof_hashes(leaves: Seq<Seq<u8>>, indices: Seq<usize>) -> Seq<Seq<u8>>;

/// The views of a list of hashes.
pub open spec fn hashes_of(v: Seq<[u8; 32]>) -> Seq<Seq<u8>> {
    v.map_values(|h: [u8; 32]| h@)
}

/// The lowercase hex digit of a value below 16.
pub open spec fn hex_digit(n: int) -> char {
    if n < 10 {
        (48 + n) as char
    } else {
        (87 + n) as char
    }
}

/// The lowercase hex text of the bytes, two digits per byte.
pub open spec fn hex_text(b: Seq<u8>) -> Seq<char>
    decreases b.len(),
{
    if b.len() == 0 {
        Seq::empty()
    } else {
        hex_text(b.drop_last()) + seq![hex_digit(b.last() as int / 16), hex_digit(b.last() as int % 16)]
    }
}

/// The hex texts of a list of hashes.
pub open spec fn hex_texts(v: Seq<Seq<u8>>) -> Seq<Seq<char>> {
    v.map_values(|h: Seq<u8>| hex_text(h))
}

/// The root of the tree over the leaves, or 32 zero bytes when there is
/// none.
pub open spec fn root_or_zero(leaves: Seq<Seq<u8>>) -> Seq<u8> {
    match merkle_root(leaves) {
        Some(h) => h,
        None => Seq::new(32, |i: int| 0u8),
    }
}

/// The leaves for a list of keys: their hashes, in the same order.
pub open spec fn key_leaves(keys: Seq<Seq<u8>>) -> Seq<Seq<u8>> {
    keys.map_values(|k: Seq<u8>| sha256(k))
}

/// The hashes of the keys that are leaves of the tree, in the keys' order.
pub open spec fn found_hashes(keys: Seq<Seq<u8>>, leaves: Seq<Seq<u8>>) -> Seq<Seq<u8>> {
    key_leaves(keys).filter(|h: Seq<u8>| leaves.contains(h))
}

/// `i` is the first position of `x` in `s`.
pub open spec fn first_index(s: Seq<Seq<u8>>, x: Seq<u8>, i: int) -> bool {
    &&& 0 <= i < s.len()
    &&& s[i] == x
    &&& forall|j: int| 0 <= j < i ==> s[j] != x
}

/// `Sha256::hash`: the SHA-256 digest of the bytes.
#[verifier::external_body]
pub(crate) fn sha256_hash(data: &[u8]) -> (r: [u8; 32])
    ensures
        r@ == sha256(data@),
{
    Sha256::hash(data)
}

/// `MerkleTree::from_leaves`: a tree over the leaves, in order.
#[verifier::external_body]
fn tree_from_leaves(leaves: &Vec<[u8; 32]>) -> (t: LeafTree)
    ensures
        merkle_leaves(t) == hashes_of(leaves@),
{
    LeafTree { tree: MerkleTree::<Sha256>::from_leaves(leaves.as_slice()) }
}

/// `MerkleTree::root`: the root of the tree, when it has one.
#[verifier::external_body]
fn tree_root(t: &LeafTree) -> (r: Option<[u8; 32]>)
    ensures
        match r {
            Some(h) => merkle_root(merkle_leaves(*t)) == Some(h@),
            None => merkle_root(merkle_leaves(*t)) is None,
        },
{
    t.tree.root()
}

/// `MerkleTree::proof(..).proof_hashes()`: the hashes proving the leaves
/// at the positions.
#[verifier::external_body]
fn tree_proof(t: &LeafTree, indices: &Vec<usize>) -> (r: Vec<[u8; 32]>)
    ensures
        hashes_of(r@) == merkle_proof_hashes(merkle_leaves(*t), indices@),
{
    t.tree.proof(indices.as_slice()).proof_hashes().to_vec()
}

/// `hex::encode`: the lowercase hex text of the bytes.
#[verifier::external_body]
pub(crate) fn hex_encode(bytes: &[u8]) -> (r: String)
    ensures
        r@ == hex_text(bytes@),
{
    hex::encode(bytes)
}

/// The tree over the store's keys and its leaves.
pub struct MerkleState {
    pub tree: LeafTree,
    pub leaf_hashes: Vec<[u8; 32]>,
}

impl MerkleState {
    /// The tree is built from exactly these leaves.
    pub open spec fn wf(&self) -> bool {
        merkle_leaves(self.tree) == hashes_of(self.leaf_hashes@)
    }

    /// The leaves as plain values.
    pub open spec fn leaves(&self) -> Seq<Seq<u8>> {
        hashes_of(self.leaf_hashes@)
    }

    /// An empty tree.
    pub fn new() -> (r: MerkleState)
        ensures
            r.wf(),
            r.leaves().len() == 0,
    {
        let leaf_hashes: Vec<[u8; 32]> = Vec::new();
        let tree = tree_from_leaves(&leaf_hashes);
        MerkleState { tree, leaf_hashes }
    }
}

/// The root of the tree, or 32 zero bytes when it has none.
pub fn root_of(m: &MerkleState) -> (r: [u8; 32])
    requires
        m.wf(),
    ensures
        r@ == root_or_zero(m.leaves()),
{
    match tree_root(&m.tree) {
        Some(h) => h,
        None => {
            let z = [0u8; 32];
            assert(z@ =~= Seq::new(32, |i: int| 0u8));
            z
        },
    }
}

/// Builds the tree over the store's keys, in ascending key order, keeps
/// it in `merkle` and returns its root (32 zero bytes for an empty store).
pub fn calc_merkle_root(storage: &DiskClient, merkle: &mut MerkleState) -> (r: [u8; 32])
    ensures
        final(merkle).wf(),
        final(merkle).leaves() == key_leaves(storage.keys()),
        r@ == root_or_zero(key_leaves(storage.keys())),
{
    let keys = match storage.get_keys() {
        Ok(k) => k,
        Err(_) => Vec::new(),
    };
    let mut leaves: Vec<[u8; 32]> = Vec::new();
    let mut i: usize = 0;
    while i < keys.len()
        invariant
            i <= keys@.len(),
            keys@.len() == storage.keys().len(),
            forall|t: int| 0 <= t < storage.keys().len() ==> (#[trigger] keys@[t])@ == storage.keys()[t],
            hashes_of(leaves@) == key_leaves(storage.keys().take(i as int)),
        decreases keys.len() - i,
    {
        let h = sha256_hash(keys[i].as_slice());
        assert(keys@[i as int]@ == storage.keys()[i as int]);
        let ghost before = leaves@;
        leaves.push(h);
        proof {
            assert(hashes_of(leaves@) =~= hashes_of(before).push(h@));
            assert(storage.keys().take(i + 1) =~= storage.keys().take(i as int).push(storage.keys()[i as int]));
            assert(hashes_of(leaves@) =~= key_leaves(storage.keys().take(i + 1)));
        }
        i = i + 1;
    }
    assert(storage.keys().take(i as int) =~= storage.keys());
    let tree = tree_from_leaves(&leaves);
    *merkle = MerkleState { tree, leaf_hashes: leaves };
    root_of(merkle)
}

/// The same as `calc_merkle_root`: the store already hands its keys out
/// in ascending order, the order every node builds its tree in.
pub fn rebuild_merkle_tree(storage: &DiskClient, merkle: &mut MerkleState) -> (r: [u8; 32])
    ensures
        final(merkle).wf(),
        final(merkle).leaves() == key_leaves(storage.keys()),
        r@ == root_or_zero(key_leaves(storage.keys())),
{
    calc_merkle_root(storage, merkle)
}

/// The first position of `h` among the leaves.
pub fn leaf_position(leaves: &Vec<[u8; 32]>, h: &[u8; 32]) -> (r: Option<usize>)
    ensures
        match r {
            Some(i) => first_index(hashes_of(leaves@), h@, i as int),
            None => !hashes_of(leaves@).contains(h@),
        },
{
    let mut i: usize = 0;
    while i < leaves.len()
        invariant
            i <= leaves@.len(),
            forall|j: int| 0 <= j < i ==> hashes_of(leaves@)[j] != h@,
        decreases leaves.len() - i,
    {
        if bytes_equal(leaves[i].as_slice(), h.as_slice()) {
            assert(hashes_of(leaves@)[i as int] == h@);
            return Some(i);
        }
        i = i + 1;
    }
    None
}

/// The hex texts of a list of hashes.
pub fn hex_list(v: &Vec<[u8; 32]>) -> (r: Vec<String>)
    ensures
        r@.len() == v@.len(),
        forall|i: int| 0 <= i < v@.len() ==> (#[trigger] r@[i])@ == hex_text(v@[i]@),
{
    let mut out: Vec<String> = Vec::new();
    let mut i: usize = 0;
    while i < v.len()
        invariant
            i <= v@.len(),
            out@.len() == i,
            forall|j: int| 0 <= j < i ==> (#[trigger] out@[j])@ == hex_text(v@[j]@),
        decreases v.len() - i,
    {
        out.push(hex_encode(v[i].as_slice()));
        i = i + 1;
    }
    out
}

/// What a read answers besides its data: the tree's root, the hashes of
/// the returned keys found among the leaves, their leaf positions and the
/// proof hashes, the hashes in hex.
pub struct KeyProof {
    pub merkle_root: String,
    pub key_hashes: Vec<String>,
    pub leaf_indices: Vec<usize>,
    pub proof: Vec<String>,
}

/// The texts of a list of strings.
pub open spec fn texts_of(v: Seq<String>) -> Seq<Seq<char>> {
    v.map_values(|s: String| s@)
}

/// The views of a list of byte strings.
pub open spec fn byte_strings(v: Seq<Vec<u8>>) -> Seq<Seq<u8>> {
    v.map_values(|s: Vec<u8>| s@)
}

/// The proof for the keys a read returns: each key's hash, when it is a
/// leaf, with the first position it has among the leaves; then the proof
/// for those positions and the tree's root.
pub fn prove_keys(m: &MerkleState, keys: &Vec<Vec<u8>>) -> (r: KeyProof)
    requires
        m.wf(),
    ensures
        r.merkle_root@ == hex_text(root_or_zero(m.leaves())),
        r.key_hashes@.len() == r.leaf_indices@.len(),
        texts_of(r.key_hashes@) == hex_texts(found_hashes(byte_strings(keys@), m.leaves())),
        forall|i: int| 0 <= i < r.leaf_indices@.len() ==> first_index(
            m.leaves(),
            #[trigger] found_hashes(byte_strings(keys@), m.leaves())[i],
            r.leaf_indices@[i] as int,
        ),
        texts_of(r.proof@) == hex_texts(merkle_proof_hashes(m.leaves(), r.leaf_indices@)),
{
    let ghost ks = byte_strings(keys@);
    let ghost pred = |h: Seq<u8>| m.leaves().contains(h);
    let mut hashes: Vec<[u8; 32]> = Vec::new();
    let mut indices: Vec<usize> = Vec::new();
    let mut i: usize = 0;
    assert(key_leaves(ks).take(0).filter(pred) =~= Seq::<Seq<u8>>::empty()) by {
        reveal(Seq::filter);
    }
    while i < keys.len()
        invariant
            i <= keys@.len(),
            ks == byte_strings(keys@),
            pred == (|h: Seq<u8>| m.leaves().contains(h)),
            hashes@.len() == indices@.len(),
            hashes_of(hashes@) == key_leaves(ks).take(i as int).filter(pred),
            forall|j: int| 0 <= j < indices@.len() ==> first_index(m.leaves(), #[trigger] hashes_of(hashes@)[j], indices@[j] as int),
        decreases keys.len() - i,
    {
        let h = sha256_hash(keys[i].as_slice());
        let ghost before_h = hashes@;
        let ghost before_i = indices@;
        assert(h@ == key_leaves(ks)[i as int]);
        match leaf_position(&m.leaf_hashes, &h) {
            Some(idx) => {
                hashes.push(h);
                indices.push(idx);
                proof {
                    assert(hashes_of(hashes@) =~= hashes_of(before_h).push(h@));
                    assert forall|j: int| 0 <= j < indices@.len() implies first_index(m.leaves(), #[trigger] hashes_of(hashes@)[j], indices@[j] as int) by {
                        if j < before_i.len() {
                            assert(hashes_of(hashes@)[j] == hashes_of(before_h)[j]);
                            assert(indices@[j] == before_i[j]);
                        }
                    }
                }
            },
            None => {},
        }
        proof {
            assert(key_leaves(ks).take(i + 1) =~= key_leaves(ks).take(i as int).push(key_leaves(ks)[i as int]));
            key_leaves(ks).take(i as int).lemma_filter_push(key_leaves(ks)[i as int], pred);
        }
        i = i + 1;
    }
    assert(key_leaves(ks).take(i as int) =~= key_leaves(ks));
    let proof_hashes = tree_proof(&m.tree, &indices);
    let root = root_of(m);
    let key_hashes = hex_list(&hashes);
    let proof = hex_list(&proof_hashes);
    assert(texts_of(key_hashes@) =~= hex_texts(hashes_of(hashes@)));
    assert(texts_of(proof@) =~= hex_texts(hashes_of(proof_hashes@)));
    KeyProof { merkle_root: hex_encode(root.as_slice()), key_hashes, leaf_indices: indices, proof }
}

/// Two strictly ascending lists of the same keys are the same list.
proof fn lemma_sorted_same_set(s1: Seq<Seq<u8>>, s2: Seq<Seq<u8>>)
    requires
        forall|i: int, j: int| 0 <= i < j < s1.len() ==> bytes_lt(#[trigger] s1[i], #[trigger] s1[j]),
        forall|i: int, j: int| 0 <= i < j < s2.len() ==> bytes_lt(#[trigger] s2[i], #[trigger] s2[j]),
        s1.to_set() == s2.to_set(),
    ensures
        s1 == s2,
    decreases s1.len(),
{
    if s1.len() == 0 {
        if s2.len() > 0 {
            assert(s2.to_set().contains(s2[0]));
        }
        assert(s2.len() == 0);
        assert(s1 =~= s2);
    } else {
        assert(s1.to_set().contains(s1.last()));
        assert(s2.len() > 0) by {
            assert(s2.to_set().contains(s1.last()));
        }
        let m1 = s1.last();
        let m2 = s2.last();
        // each last element is the largest of the common set
        assert(m1 == m2) by {
            assert(s2.to_set().contains(m1));
            assert(s1.to_set().contains(m2));
            let i1 = choose|i: int| 0 <= i < s1.len() && s1[i] == m2;
            let i2 = choose|i: int| 0 <= i < s2.len() && s2[i] == m1;
            if m1 != m2 {
                assert(i1 < s1.len() - 1);
                assert(i2 < s2.len() - 1);
                assert(bytes_lt(m2, m1));
                assert(bytes_lt(m1, m2));
                lemma_lt_strict_total(m1, m2);
            }
        }
        let t1 = s1.drop_last();
        let t2 = s2.drop_last();
        assert(t1.to_set() =~= t2.to_set()) by {
            assert forall|x: Seq<u8>| t1.to_set().contains(x) <==> t2.to_set().contains(x) by {
                if t1.to_set().contains(x) {
                    let i = choose|i: int| 0 <= i < t1.len() && t1[i] == x;
                    assert(s1[i] == x);
                    assert(bytes_lt(x, m1));
                    lemma_lt_strict_total(x, m1);
                    assert(s2.to_set().contains(x));
                    let j = choose|j: int| 0 <= j < s2.len() && s2[j] == x;
                    assert(j != s2.len() - 1);
                    assert(t2[j] == x);
                }
                if t2.to_set().contains(x) {
                    let i = choose|i: int| 0 <= i < t2.len() && t2[i] == x;
                    assert(s2[i] == x);
                    assert(bytes_lt(x, m2));
                    lemma_lt_strict_total(x, m2);
                    assert(s1.to_set().contains(x));
                    let j = choose|j: int| 0 <= j < s1.len() && s1[j] == x;
                    assert(j != s1.len() - 1);
                    assert(t1[j] == x);
                }
            }
        }
        lemma_sorted_same_set(t1, t2);
        assert(s1 =~= t1.push(m1));
        assert(s2 =~= t2.push(m2));
    }
}

/// The tree depends on the set of live keys alone: two stores with the
/// same keys, whatever order they were written in, give every node the
/// same leaves and so the same root.
pub proof fn law_tree_depends_on_key_set(s1: DiskClient, s2: DiskClient)
    requires
        s1.wf(),
        s2.wf(),
        s1.index().dom() == s2.index().dom(),
    ensures
        key_leaves(s1.keys()) == key_leaves(s2.keys()),
        root_or_zero(key_leaves(s1.keys())) == root_or_zero(key_leaves(s2.keys())),
{
    s1.lemma_index();
    s2.lemma_index();
    assert(s1.keys().to_set() =~= s2.keys().to_set()) by {
        assert forall|k: Seq<u8>| s1.keys().to_set().contains(k) <==> s2.keys().to_set().contains(k) by {
            if s1.keys().to_set().contains(k) {
                let i = choose|i: int| 0 <= i < s1.keys().len() && s1.keys()[i] == k;
                assert(s1.entries()[i].0 == k);
                assert(s2.index().contains_key(k));
                let j = choose|j: int| 0 <= j < s2.entries().len() && #[trigger] s2.entries()[j].0 == k;
                assert(s2.keys()[j] == k);
            }
            if s2.keys().to_set().contains(k) {
                let i = choose|i: int| 0 <= i < s2.keys().len() && s2.keys()[i] == k;
                assert(s2.entries()[i].0 == k);
                assert(s1.index().contains_key(k));
                let j = choose|j: int| 0 <= j < s1.entries().len() && #[trigger] s1.entries()[j].0 == k;
                assert(s1.keys()[j] == k);
            }
        }
    }
    lemma_sorted_same_set(s1.keys(), s2.keys());
}

} // verus!
