use vstd::prelude::*;

verus! {

use crate::curve::{
    add_points, hash_bytes_to_point, hash_to_point, identity_point, is_point, point_difference,
    point_sum, sub_points, zeros,
};
use crate::merkle::AbstractMerkle;
use crate::merkle_crhf::{HASH_LENGTH, blake2b_256, blake2b_256_of, leaf_tag, overwrite};
use crate::tree_hasher::{TreeHasherFunc, offsets_distinct};
use vstd::arithmetic::power::pow;

/// An internal node that also keeps the hash of its accumulator.
#[derive(Copy, Clone, Debug, PartialEq, Eq)]
pub struct FatMerkleppNode {
    pub actual_hash: [u8; 32],
    pub hash_of_hash: [u8; 32],
}

/// A digest of the incremental policy: the accumulator of an internal node (the encoding of a
/// Ristretto point), or the hash of a leaf.
#[derive(Copy, Clone, Debug, PartialEq, Eq)]
pub enum MerkleppHashValue {
    InternalThin([u8; 32]),
    InternalFat(FatMerkleppNode),
    Leaf([u8; HASH_LENGTH]),
}

/// The little-endian bytes of `x`.
pub open spec fn le_bytes(x: u64) -> Seq<u8> {
    Seq::new(8, |j: int| ((x >> ((8 * j) as u64)) & 0xff) as u8)
}

/// Relies on `bincode::serialize`, whose default encoding writes a `usize` as eight
/// little-endian bytes and cannot fail on one.
#[verifier::external_body]
fn encode_offset(i: usize) -> (r: Vec<u8>)
    ensures
        r@ == le_bytes(i as u64),
{
    bincode::serialize(&i).unwrap()
}

/// The bytes that stand for a child's digest in its contribution.
pub open spec fn digest_bytes(h: MerkleppHashValue) -> Seq<u8> {
    match h {
        MerkleppHashValue::InternalThin(b) => b@,
        MerkleppHashValue::Leaf(b) => b@,
        MerkleppHashValue::InternalFat(fat) => fat.actual_hash@,
    }
}

/// What the child at offset `i` adds to its parent's accumulator: its digest and its offset,
/// hashed to a point.
pub open spec fn contribution(i: usize, h: MerkleppHashValue) -> [u8; 32] {
    hash_to_point(digest_bytes(h) + le_bytes(i as u64))
}

/// The sum of the contributions of `children`, each at its offset, from the identity.
pub open spec fn contributions_sum(children: Seq<MerkleppHashValue>) -> [u8; 32]
    decreases children.len(),
{
    if children.len() == 0 {
        zeros()
    } else {
        point_sum(
            contributions_sum(children.drop_last())@,
            contribution((children.len() - 1) as usize, children.last())@,
        )
    }
}

/// The change that `news` makes to the accumulator: for each changed child, its old
/// contribution is taken away and its new one added, from the identity.
pub open spec fn delta_sum(olds: Seq<MerkleppHashValue>, news: Seq<(usize, MerkleppHashValue)>) -> [u8; 32]
    decreases news.len(),
{
    if news.len() == 0 {
        zeros()
    } else {
        let (o, n) = news.last();
        point_sum(
            point_difference(delta_sum(olds, news.drop_last())@, contribution(o, olds[o as int])@)@,
            contribution(o, n)@,
        )
    }
}

/// The accumulator of an internal node.
pub open spec fn accumulator(h: MerkleppHashValue) -> Seq<u8> {
    match h {
        MerkleppHashValue::InternalThin(b) => b@,
        _ => zeros()@,
    }
}

/// The parent's new digest: recomputed from all children when more than half of them changed,
/// else the old accumulator plus the change.
pub open spec fn merklepp_nodes(
    arity: nat,
    old_parent: MerkleppHashValue,
    olds: Seq<MerkleppHashValue>,
    news: Seq<(usize, MerkleppHashValue)>,
) -> MerkleppHashValue {
    if news.len() > arity / 2 {
        MerkleppHashValue::InternalThin(point_sum(zeros()@, contributions_sum(overwrite(olds, news))@))
    } else {
        MerkleppHashValue::InternalThin(point_sum(accumulator(old_parent), delta_sum(olds, news)@))
    }
}

/// Hashes the digest of the child at offset `i` together with `i`, to a point.
pub fn hash_child(i: usize, child_hash: &MerkleppHashValue) -> (r: [u8; 32])
    ensures
        r == contribution(i, *child_hash),
        is_point(r@),
{
    let mut bytes: Vec<u8> = Vec::new();
    let src: &[u8; 32] = match child_hash {
        MerkleppHashValue::InternalThin(incr_hash) => incr_hash,
        MerkleppHashValue::Leaf(leaf_hash) => leaf_hash,
        MerkleppHashValue::InternalFat(fat) => &fat.actual_hash,
    };
    let mut j: usize = 0;
    while j < 32
        invariant
            j <= 32,
            bytes@ == src@.subrange(0, j as int),
        decreases 32 - j,
    {
        bytes.push(src[j]);
        j += 1;
        proof {
            assert(bytes@ =~= src@.subrange(0, j as int));
        }
    }
    let tail = encode_offset(i);
    let mut t: usize = 0;
    let ghost head = bytes@;
    while t < tail.len()
        invariant
            t <= tail@.len(),
            bytes@ == head + tail@.subrange(0, t as int),
        decreases tail@.len() - t,
    {
        bytes.push(tail[t]);
        t += 1;
        proof {
            assert(bytes@ =~= head + tail@.subrange(0, t as int));
        }
    }
    proof {
        assert(src@.subrange(0, 32) =~= src@);
        assert(tail@.subrange(0, tail@.len() as int) =~= tail@);
        assert(bytes@ =~= digest_bytes(*child_hash) + le_bytes(i as u64));
    }
    hash_bytes_to_point(bytes.as_slice())
}

/// The incremental (Merkle++) policy: a leaf's digest is a plain hash; a parent's digest is an
/// additive accumulator of its children's contributions, so that changing a few children costs
/// two contributions each.
pub struct IncrementalHasher {
    num_hashes: usize,
    arity: usize,
    is_fat: bool,
}

impl IncrementalHasher {
    /// Whether nodes are meant to keep the hash of their accumulator too.
    pub closed spec fn spec_is_fat(&self) -> bool {
        self.is_fat
    }

    pub fn new(arity: usize, is_fat: bool) -> (r: Self)
        ensures
            r.wf(),
            r.arity() == arity,
            r.computations() == 0,
            r.spec_is_fat() == is_fat,
    {
        IncrementalHasher { num_hashes: 0, arity, is_fat }
    }

    pub fn is_fat(&self) -> (r: bool)
        ensures
            r == self.spec_is_fat(),
    {
        self.is_fat
    }
}

impl TreeHasherFunc<String, MerkleppHashValue> for IncrementalHasher {
    open spec fn wf(&self) -> bool {
        true
    }

    closed spec fn arity(&self) -> nat {
        self.arity as nat
    }

    open spec fn leaf_fn(&self) -> spec_fn(usize, String) -> MerkleppHashValue {
        |offset: usize, data: String|
            MerkleppHashValue::Leaf(blake2b_256_of(leaf_tag() + vstd::utf8::encode_utf8(data@)))
    }

    open spec fn nodes_fn(&self) -> spec_fn(
        MerkleppHashValue,
        Seq<MerkleppHashValue>,
        Seq<(usize, MerkleppHashValue)>,
    ) -> MerkleppHashValue {
        |p: MerkleppHashValue, olds: Seq<MerkleppHashValue>, news: Seq<(usize, MerkleppHashValue)>|
            merklepp_nodes(self.arity(), p, olds, news)
    }

    closed spec fn computations(&self) -> nat {
        self.num_hashes as nat
    }

    open spec fn leaf_cost() -> nat {
        0
    }

    /// Recomputing costs `arity` contributions; updating costs two per changed child.
    open spec fn nodes_cost(arity: nat, num_children: nat, num_changed: nat) -> nat {
        if num_changed > arity / 2 {
            arity
        } else {
            2 * num_changed
        }
    }

    proof fn lemma_computations_bounded(&self) {
    }

    open spec fn blank() -> MerkleppHashValue {
        MerkleppHashValue::InternalThin(zeros())
    }

    open spec fn leaf_kind(h: MerkleppHashValue) -> bool {
        h is Leaf
    }

    open spec fn node_kind(h: MerkleppHashValue) -> bool {
        match h {
            MerkleppHashValue::InternalThin(b) => is_point(b@),
            _ => false,
        }
    }

    fn empty_digest() -> (r: MerkleppHashValue) {
        MerkleppHashValue::InternalThin(identity_point())
    }

    fn get_num_computations(&self) -> (r: usize) {
        self.num_hashes
    }

    fn hash_leaf_data(&mut self, offset: usize, leaf: String) -> (r: MerkleppHashValue) {
        let mut bytes: Vec<u8> = Vec::new();
        crate::merkle_crhf::absorb(&mut bytes, "leaf:".as_bytes());
        crate::merkle_crhf::absorb(&mut bytes, leaf.as_str().as_bytes());
        MerkleppHashValue::Leaf(blake2b_256(bytes.as_slice()))
    }

    fn hash_nodes(
        &mut self,
        old_parent_hash: MerkleppHashValue,
        old_children: Vec<MerkleppHashValue>,
        new_children: &Vec<(usize, MerkleppHashValue)>,
    ) -> (r: MerkleppHashValue) {
        // count the number of children whose hashes have changed
        let num_changes = new_children.len();
        let mut acc = identity_point();
        let incr_hash;
        if num_changes > self.arity / 2 {
            // more than half the children changed: recompute the parent from scratch, which costs
            // fewer contributions than updating it
            incr_hash = identity_point();
            self.num_hashes = self.num_hashes.saturating_add(self.arity);
            let mut children = old_children;
            let mut t: usize = 0;
            while t < new_children.len()
                invariant
                    t <= new_children@.len(),
                    children@.len() == old_children@.len(),
                    children@ == overwrite(old_children@, new_children@.subrange(0, t as int)),
                    offsets_distinct(new_children@, old_children@.len() as int),
                decreases new_children@.len() - t,
            {
                let (pos, hash) = new_children[t];
                children.set(pos, hash);
                proof {
                    assert(new_children@.subrange(0, t + 1).drop_last() =~= new_children@.subrange(0, t as int));
                }
                t += 1;
            }
            proof {
                assert(new_children@.subrange(0, new_children@.len() as int) =~= new_children@);
            }
            let mut i: usize = 0;
            while i < children.len()
                invariant
                    i <= children@.len(),
                    acc == contributions_sum(children@.subrange(0, i as int)),
                    is_point(acc@),
                decreases children@.len() - i,
            {
                let c = hash_child(i, &children[i]);
                acc = add_points(&acc, &c);
                proof {
                    assert(children@.subrange(0, i + 1).drop_last() =~= children@.subrange(0, i as int));
                }
                i += 1;
            }
            proof {
                assert(children@.subrange(0, children@.len() as int) =~= children@);
            }
        } else {
            // few children changed: update the parent's accumulator
            incr_hash = match old_parent_hash {
                MerkleppHashValue::InternalThin(hash) => hash,
                _ => identity_point(),
            };
            self.num_hashes = self.num_hashes.saturating_add(2 * num_changes);
            let mut t: usize = 0;
            while t < new_children.len()
                invariant
                    t <= new_children@.len(),
                    acc == delta_sum(old_children@, new_children@.subrange(0, t as int)),
                    is_point(acc@),
                    offsets_distinct(new_children@, old_children@.len() as int),
                decreases new_children@.len() - t,
            {
                let (pos, hash) = new_children[t];
                let before = hash_child(pos, &old_children[pos]);
                let after = hash_child(pos, &hash);
                acc = sub_points(&acc, &before);
                acc = add_points(&acc, &after);
                proof {
                    assert(new_children@.subrange(0, t + 1).drop_last() =~= new_children@.subrange(0, t as int));
                }
                t += 1;
            }
            proof {
                assert(new_children@.subrange(0, new_children@.len() as int) =~= new_children@);
            }
        }
        MerkleppHashValue::InternalThin(add_points(&incr_hash, &acc))
    }
}

/// A perfect Merkle++ tree of the given arity and height.
pub fn new_merklepp_from_height(arity: usize, height: usize, is_fat: bool) -> (r: AbstractMerkle<
    String,
    MerkleppHashValue,
    IncrementalHasher,
>)
    requires
        arity >= 2,
        pow(arity as int, height as nat) * arity <= usize::MAX,
    ensures
        r.is_new(arity as int, pow(arity as int, height as nat)),
        r.spec_hasher().computations() == 0,
{
    let hasher = IncrementalHasher::new(arity, is_fat);
    AbstractMerkle::new(arity, height, hasher)
}

/// A Merkle++ tree of the given arity with `num_leaves` leaves.
pub fn new_merklepp_from_leaves(arity: usize, num_leaves: usize, is_fat: bool) -> (r: AbstractMerkle<
    String,
    MerkleppHashValue,
    IncrementalHasher,
>)
    requires
        arity >= 2,
        num_leaves >= 1,
        num_leaves * arity <= usize::MAX,
    ensures
        r.is_new(arity as int, num_leaves as int),
        r.spec_hasher().computations() == 0,
{
    let hasher = IncrementalHasher::new(arity, is_fat);
    AbstractMerkle::with_num_leaves(arity, num_leaves, hasher)
}

} // verus!
