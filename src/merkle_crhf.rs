use vstd::prelude::*;

verus! {

use std::marker::PhantomData;
use vstd::string::StringSliceAdditionalSpecFns;
use blake2::Digest;
use tiny_keccak::Hasher;
use crate::merkle::{AbstractMerkle, cost_of, lemma_single_combine_per_node};
use crate::propagation::{combined_in_update, lemma_update_cost_unit, update_cost, updates_ok};
use crate::tree_hasher::{TreeHasherFunc, offsets_distinct};
use vstd::arithmetic::power::pow;

pub const HASH_LENGTH: usize = 32;

/// The SHA3-256 digest of `b`.
pub uninterp spec fn sha3_256_of(b: Seq<u8>) -> [u8; HASH_LENGTH];

/// The BLAKE2s-256 digest of `b`.
pub uninterp spec fn blake2s_256_of(b: Seq<u8>) -> [u8; HASH_LENGTH];

/// The BLAKE2b digest of `b`, with a 32-byte output.
pub uninterp spec fn blake2b_256_of(b: Seq<u8>) -> [u8; HASH_LENGTH];

/// Relies on tiny_keccak's `Sha3::v256`: the SHA3-256 digest of the bytes absorbed.
#[verifier::external_body]
fn sha3_256(bytes: &[u8]) -> (r: [u8; HASH_LENGTH])
    ensures
        r == sha3_256_of(bytes@),
{
    let mut hasher = tiny_keccak::Sha3::v256();
    hasher.update(bytes);
    let mut out = [0u8; HASH_LENGTH];
    hasher.finalize(&mut out);
    out
}

/// Relies on blake2's `Blake2s256`: the BLAKE2s-256 digest of `bytes`.
#[verifier::external_body]
fn blake2s_256(bytes: &[u8]) -> (r: [u8; HASH_LENGTH])
    ensures
        r == blake2s_256_of(bytes@),
{
    blake2::Blake2s256::digest(bytes).into()
}

/// Relies on blake2's `Blake2b<U32>`: the BLAKE2b digest of `bytes`, 32 bytes long.
#[verifier::external_body]
pub(crate) fn blake2b_256(bytes: &[u8]) -> (r: [u8; HASH_LENGTH])
    ensures
        r == blake2b_256_of(bytes@),
{
    blake2::Blake2b::<digest::consts::U32>::digest(bytes).into()
}

/// The bytes that prefix a leaf's data before it is hashed.
pub open spec fn leaf_tag() -> Seq<u8> {
    "leaf:".spec_bytes()
}

/// The bytes that prefix the children's digests before they are hashed.
pub open spec fn internal_tag() -> Seq<u8> {
    "internal:".spec_bytes()
}

/// A 32-byte digest.
#[derive(Copy, Clone, Debug, Default, PartialEq, Eq)]
pub struct MerkleHashValue {
    pub hash: [u8; HASH_LENGTH],
}

/// The concatenated bytes of `children`.
pub open spec fn concat_hashes(children: Seq<MerkleHashValue>) -> Seq<u8>
    decreases children.len(),
{
    if children.len() == 0 {
        Seq::empty()
    } else {
        concat_hashes(children.drop_last()) + children.last().hash@
    }
}

/// `children` with each `(offset, digest)` of `news` written at its offset.
pub open spec fn overwrite<H>(children: Seq<H>, news: Seq<(usize, H)>) -> Seq<H>
    decreases news.len(),
{
    if news.len() == 0 {
        children
    } else {
        overwrite(children, news.drop_last()).update(news.last().0 as int, news.last().1)
    }
}

/// A hash function that absorbs bytes, then yields a 32-byte digest.
pub trait HashFuncTrait: Sized {
    /// The bytes absorbed so far.
    spec fn absorbed(&self) -> Seq<u8>;

    /// The digest of `bytes`.
    spec fn digest_of(bytes: Seq<u8>) -> [u8; HASH_LENGTH];

    fn new() -> (r: Self)
        ensures
            r.absorbed() == Seq::<u8>::empty(),
    ;

    fn update(&mut self, buf: &[u8])
        ensures
            final(self).absorbed() == old(self).absorbed() + buf@,
    ;

    fn finalize(self, buf: &mut [u8; HASH_LENGTH])
        ensures
            *final(buf) == Self::digest_of(self.absorbed()),
    ;
}

/// Appends `buf` to `bytes`.
pub(crate) fn absorb(bytes: &mut Vec<u8>, buf: &[u8])
    ensures
        final(bytes)@ == old(bytes)@ + buf@,
{
    let mut i: usize = 0;
    while i < buf.len()
        invariant
            i <= buf@.len(),
            bytes@ == old(bytes)@ + buf@.subrange(0, i as int),
        decreases buf@.len() - i,
    {
        bytes.push(buf[i]);
        i += 1;
        proof {
            assert(bytes@ =~= old(bytes)@ + buf@.subrange(0, i as int));
        }
    }
    proof {
        assert(buf@.subrange(0, buf@.len() as int) =~= buf@);
    }
}

/// SHA3-256.
pub struct Sha3HashFunc {
    bytes: Vec<u8>,
}

impl HashFuncTrait for Sha3HashFunc {
    closed spec fn absorbed(&self) -> Seq<u8> {
        self.bytes@
    }

    open spec fn digest_of(bytes: Seq<u8>) -> [u8; HASH_LENGTH] {
        sha3_256_of(bytes)
    }

    fn new() -> (r: Self) {
        Sha3HashFunc { bytes: Vec::new() }
    }

    fn update(&mut self, buf: &[u8]) {
        absorb(&mut self.bytes, buf);
    }

    fn finalize(self, buf: &mut [u8; HASH_LENGTH]) {
        *buf = sha3_256(self.bytes.as_slice());
    }
}

/// BLAKE2s-256, the faster choice on 32-bit platforms.
pub struct Blake2sHashFunc {
    bytes: Vec<u8>,
}

impl HashFuncTrait for Blake2sHashFunc {
    closed spec fn absorbed(&self) -> Seq<u8> {
        self.bytes@
    }

    open spec fn digest_of(bytes: Seq<u8>) -> [u8; HASH_LENGTH] {
        blake2s_256_of(bytes)
    }

    fn new() -> (r: Self) {
        Blake2sHashFunc { bytes: Vec::new() }
    }

    fn update(&mut self, buf: &[u8]) {
        absorb(&mut self.bytes, buf);
    }

    fn finalize(self, buf: &mut [u8; HASH_LENGTH]) {
        *buf = blake2s_256(self.bytes.as_slice());
    }
}

/// BLAKE2b with a 32-byte output, the faster choice on 64-bit platforms.
pub struct Blake2bHashFunc {
    bytes: Vec<u8>,
}

impl HashFuncTrait for Blake2bHashFunc {
    closed spec fn absorbed(&self) -> Seq<u8> {
        self.bytes@
    }

    open spec fn digest_of(bytes: Seq<u8>) -> [u8; HASH_LENGTH] {
        blake2b_256_of(bytes)
    }

    fn new() -> (r: Self) {
        Blake2bHashFunc { bytes: Vec::new() }
    }

    fn update(&mut self, buf: &[u8]) {
        absorb(&mut self.bytes, buf);
    }

    fn finalize(self, buf: &mut [u8; HASH_LENGTH]) {
        *buf = blake2b_256(self.bytes.as_slice());
    }
}

/// The plain Merkle policy: a leaf's digest is the hash of `"leaf:" || data`; a parent's digest
/// is the hash of `"internal:"` followed by all its children's digests, recomputed in full.
pub struct HasherCRHF<HashFunc> {
    num_hashes: usize,
    arity: usize,
    phantom: PhantomData<HashFunc>,
}

impl<HashFunc: HashFuncTrait> HasherCRHF<HashFunc> {
    pub fn new(arity: usize) -> (r: Self)
        ensures
            r.wf(),
            r.arity() == arity,
            r.computations() == 0,
    {
        HasherCRHF { num_hashes: 0, arity, phantom: PhantomData }
    }
}

impl<HashFunc: HashFuncTrait> TreeHasherFunc<String, MerkleHashValue> for HasherCRHF<HashFunc> {
    open spec fn wf(&self) -> bool {
        true
    }

    closed spec fn arity(&self) -> nat {
        self.arity as nat
    }

    open spec fn leaf_fn(&self) -> spec_fn(usize, String) -> MerkleHashValue {
        |offset: usize, data: String| MerkleHashValue { hash: HashFunc::digest_of(leaf_tag() + vstd::utf8::encode_utf8(data@)) }
    }

    open spec fn nodes_fn(&self) -> spec_fn(MerkleHashValue, Seq<MerkleHashValue>, Seq<(usize, MerkleHashValue)>) -> MerkleHashValue {
        |old_parent: MerkleHashValue, old_children: Seq<MerkleHashValue>, news: Seq<(usize, MerkleHashValue)>|
            MerkleHashValue {
                hash: HashFunc::digest_of(internal_tag() + concat_hashes(overwrite(old_children, news))),
            }
    }

    closed spec fn computations(&self) -> nat {
        self.num_hashes as nat
    }

    open spec fn leaf_cost() -> nat {
        1
    }

    open spec fn nodes_cost(arity: nat, num_children: nat, num_changed: nat) -> nat {
        1
    }

    proof fn lemma_computations_bounded(&self) {
    }

    open spec fn blank() -> MerkleHashValue {
        MerkleHashValue { hash: [0u8; HASH_LENGTH] }
    }

    open spec fn leaf_kind(h: MerkleHashValue) -> bool {
        true
    }

    open spec fn node_kind(h: MerkleHashValue) -> bool {
        true
    }

    fn empty_digest() -> (r: MerkleHashValue) {
        MerkleHashValue { hash: [0u8; HASH_LENGTH] }
    }

    fn get_num_computations(&self) -> (r: usize) {
        self.num_hashes
    }

    fn hash_leaf_data(&mut self, offset: usize, leaf: String) -> (r: MerkleHashValue) {
        self.num_hashes = self.num_hashes.saturating_add(1);
        let mut hasher = HashFunc::new();
        hasher.update("leaf:".as_bytes());
        hasher.update(leaf.as_str().as_bytes());
        let mut hv = MerkleHashValue { hash: [0u8; HASH_LENGTH] };
        hasher.finalize(&mut hv.hash);
        hv
    }

    fn hash_nodes(
        &mut self,
        old_parent_hash: MerkleHashValue,
        old_children: Vec<MerkleHashValue>,
        new_children: &Vec<(usize, MerkleHashValue)>,
    ) -> (r: MerkleHashValue) {
        self.num_hashes = self.num_hashes.saturating_add(1);
        let mut hasher = HashFunc::new();
        hasher.update("internal:".as_bytes());
        // replace old hashes with new ones
        let mut children = old_children;
        let mut t: usize = 0;
        while t < new_children.len()
            invariant
                t <= new_children@.len(),
                children@.len() == old_children@.len(),
                children@ == overwrite(old_children@, new_children@.subrange(0, t as int)),
                offsets_distinct(new_children@, old_children@.len() as int),
            decreases new_children@.len() - t,
        {
            let (pos, hash) = new_children[t];
            children.set(pos, hash);
            proof {
                assert(new_children@.subrange(0, t + 1).drop_last() =~= new_children@.subrange(0, t as int));
            }
            t += 1;
        }
        proof {
            assert(new_children@.subrange(0, new_children@.len() as int) =~= new_children@);
        }
        let mut i: usize = 0;
        while i < children.len()
            invariant
                i <= children@.len(),
                hasher.absorbed() == internal_tag() + concat_hashes(children@.subrange(0, i as int)),
            decreases children@.len() - i,
        {
            hasher.update(children[i].hash.as_slice());
            proof {
                assert(children@.subrange(0, i + 1).drop_last() =~= children@.subrange(0, i as int));
            }
            i += 1;
        }
        proof {
            assert(children@.subrange(0, children@.len() as int) =~= children@);
        }
        let mut hv = MerkleHashValue { hash: [0u8; HASH_LENGTH] };
        hasher.finalize(&mut hv.hash);
        hv
    }
}

/// In a plain Merkle tree, a batch update counts one hash per updated leaf and one per parent
/// that it combines, and it combines no parent twice.
pub proof fn lemma_crhf_update_count<HashFunc: HashFuncTrait>(
    t: AbstractMerkle<String, MerkleHashValue, HasherCRHF<HashFunc>>,
    upds: Seq<(usize, String)>,
)
    requires
        t.wf(),
        updates_ok(upds, t.spec_num_leaves()),
    ensures
        update_cost(
            <HasherCRHF<HashFunc> as TreeHasherFunc<String, MerkleHashValue>>::leaf_cost(),
            cost_of::<String, MerkleHashValue, HasherCRHF<HashFunc>>(t.spec_arity() as nat),
            t.spec_hasher().leaf_fn(),
            t.spec_hasher().nodes_fn(),
            t.spec_arity(),
            t.spec_num_internal(),
            t.spec_first_last_level_leaf(),
            t.spec_nodes(),
            upds,
        ) == upds.len() + combined_in_update(
            t.spec_hasher().leaf_fn(),
            t.spec_hasher().nodes_fn(),
            t.spec_arity(),
            t.spec_num_internal(),
            t.spec_first_last_level_leaf(),
            t.spec_nodes(),
            upds,
        ).len(),
        combined_in_update(
            t.spec_hasher().leaf_fn(),
            t.spec_hasher().nodes_fn(),
            t.spec_arity(),
            t.spec_num_internal(),
            t.spec_first_last_level_leaf(),
            t.spec_nodes(),
            upds,
        ).no_duplicates(),
{
    let cost = cost_of::<String, MerkleHashValue, HasherCRHF<HashFunc>>(t.spec_arity() as nat);
    assert forall|m: nat, c: nat| #[trigger] cost(m, c) == 1 by {}
    lemma_update_cost_unit(
        cost,
        t.spec_hasher().leaf_fn(),
        t.spec_hasher().nodes_fn(),
        t.spec_arity(),
        t.spec_num_internal(),
        t.spec_first_last_level_leaf(),
        t.spec_nodes(),
        upds,
    );
    lemma_single_combine_per_node(t, upds);
}

/// A plain Merkle tree of the given arity with `num_leaves` leaves.
pub fn new_merkle_crhf_from_leaves<HashFunc: HashFuncTrait>(arity: usize, num_leaves: usize) -> (r:
    AbstractMerkle<String, MerkleHashValue, HasherCRHF<HashFunc>>)
    requires
        arity >= 2,
        num_leaves >= 1,
        num_leaves * arity <= usize::MAX,
    ensures
        r.is_new(arity as int, num_leaves as int),
        r.spec_hasher().computations() == 0,
{
    let hasher = HasherCRHF::new(arity);
    AbstractMerkle::with_num_leaves(arity, num_leaves, hasher)
}

/// A perfect plain Merkle tree of the given arity and height.
pub fn new_merkle_crhf_from_height<HashFunc: HashFuncTrait>(arity: usize, height: usize) -> (r:
    AbstractMerkle<String, MerkleHashValue, HasherCRHF<HashFunc>>)
    requires
        arity >= 2,
        pow(arity as int, height as nat) * arity <= usize::MAX,
    ensures
        r.is_new(arity as int, pow(arity as int, height as nat)),
        r.spec_hasher().computations() == 0,
{
    let hasher = HasherCRHF::new(arity);
    AbstractMerkle::new(arity, height, hasher)
}

} // verus!
