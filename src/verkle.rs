use vstd::prelude::*;

verus! {

use crate::curve::{
    BaseTable, MsmTable, add_points, decompresses, base_mul, hash_bytes_to_scalar, scalar_from_hash,
    identity_point, is_point, make_base_table, make_msm_table, msm,
    multiscalar_mul, point_sum, scalar_difference, sub_scalars, table_mul, zeros,
};
use crate::merkle::AbstractMerkle;
use crate::merkle_crhf::{absorb, leaf_tag};
use crate::tree_hasher::{TreeHasherFunc, offsets_distinct};
use vstd::arithmetic::power::pow;

/// Up to this many changed children, a parent is updated with one scalar multiplication per
/// child; beyond it, with one multi-scalar multiplication.
pub const SERIAL_EXP_CUTOFF: usize = 4;

/// A digest of the vector-commitment policy: the commitment of an internal node (the encoding of
/// a Ristretto point), the scalar of a leaf, or nothing yet.
#[derive(Copy, Clone, Debug, PartialEq, Eq)]
pub enum VerkleComm {
    Internal([u8; 32]),
    Leaf([u8; 32]),
    Empty,
}

/// The scalar by which a child's change moves its parent's commitment, for the transitions the
/// tree makes: from nothing to a leaf or a commitment, or between two of the same kind.
pub open spec fn scalar_delta(old_child: VerkleComm, new_child: VerkleComm) -> Seq<u8> {
    match (old_child, new_child) {
        (VerkleComm::Empty, VerkleComm::Leaf(y)) => y@,
        (VerkleComm::Empty, VerkleComm::Internal(g)) => scalar_from_hash(g@)@,
        (VerkleComm::Leaf(a), VerkleComm::Leaf(b)) => scalar_difference(b@, a@)@,
        (VerkleComm::Internal(a), VerkleComm::Internal(b)) => scalar_difference(
            scalar_from_hash(b@)@,
            scalar_from_hash(a@)@,
        )@,
        _ => zeros()@,
    }
}

/// Hashes the encoding of a group element to a scalar.
pub fn hash_to_scalar(gelem: &[u8; 32]) -> (r: [u8; 32])
    ensures
        r == scalar_from_hash(gelem@),
{
    hash_bytes_to_scalar(gelem.as_slice())
}

/// The `(offset, scalar)` of each changed child.
pub open spec fn scalar_deltas(olds: Seq<VerkleComm>, news: Seq<(usize, VerkleComm)>) -> Seq<(usize, Seq<u8>)> {
    Seq::new(news.len(), |j: int| (news[j].0, scalar_delta(olds[news[j].0 as int], news[j].1)))
}

/// The sum of each delta times its offset's base point, one multiplication at a time, from the
/// identity.
pub open spec fn serial_sum(bases: Seq<Seq<u8>>, ds: Seq<(usize, Seq<u8>)>) -> [u8; 32]
    decreases ds.len(),
{
    if ds.len() == 0 {
        zeros()
    } else {
        point_sum(serial_sum(bases, ds.drop_last())@, base_mul(bases[ds.last().0 as int], ds.last().1)@)
    }
}

/// One scalar per base point: each delta at its offset, zero elsewhere.
pub open spec fn scalar_vector(n: nat, ds: Seq<(usize, Seq<u8>)>) -> Seq<Seq<u8>>
    decreases ds.len(),
{
    if ds.len() == 0 {
        Seq::new(n, |i: int| zeros()@)
    } else {
        scalar_vector(n, ds.drop_last()).update(ds.last().0 as int, ds.last().1)
    }
}

/// The point by which the parent's commitment moves.
pub open spec fn commitment_delta(bases: Seq<Seq<u8>>, ds: Seq<(usize, Seq<u8>)>) -> [u8; 32] {
    if ds.len() <= SERIAL_EXP_CUTOFF {
        serial_sum(bases, ds)
    } else {
        multiscalar_mul(bases, scalar_vector(bases.len(), ds))
    }
}

/// The parent's new commitment: the delta, added to the old commitment if there is one.
pub open spec fn verkle_nodes(
    bases: Seq<Seq<u8>>,
    old_parent: VerkleComm,
    olds: Seq<VerkleComm>,
    news: Seq<(usize, VerkleComm)>,
) -> VerkleComm {
    let d = commitment_delta(bases, scalar_deltas(olds, news));
    match old_parent {
        VerkleComm::Internal(g) => VerkleComm::Internal(point_sum(g@, d@)),
        _ => VerkleComm::Internal(d),
    }
}

/// The vector-commitment (Verkle) policy: a leaf's digest is a scalar hashed from its data; a
/// parent's digest commits to its children's scalars against one base point per offset.
pub struct VerkleHasher {
    num_hashes: usize,
    arity: usize,
    precomp: MsmTable,
    base_tables: Vec<BaseTable>,
}

impl VerkleHasher {
    /// The encodings of the base points, one per offset.
    pub closed spec fn bases(&self) -> Seq<Seq<u8>> {
        self.precomp.bases()
    }

    /// A policy for trees of the given arity, with one base point per offset; `None` unless
    /// there are `arity` base points and each is the encoding of a point.
    pub fn new(arity: usize, bases: Vec<[u8; 32]>) -> (r: Option<Self>)
        ensures
            r is Some <==> (bases@.len() == arity && forall|i: int|
                0 <= i < bases@.len() ==> is_point(#[trigger] bases@[i]@)),
            r matches Some(h) ==> {
                &&& h.wf()
                &&& h.arity() == arity
                &&& h.bases() == bases@.map_values(|b: [u8; 32]| b@)
                &&& h.computations() == 0
            },
    {
        if bases.len() != arity {
            return None;
        }
        let mut k: usize = 0;
        while k < bases.len()
            invariant
                k <= bases@.len(),
                forall|j: int| 0 <= j < k ==> is_point(#[trigger] bases@[j]@),
            decreases bases@.len() - k,
        {
            if !decompresses(&bases[k]) {
                return None;
            }
            k += 1;
        }
        let mut base_tables: Vec<BaseTable> = Vec::with_capacity(arity);
        let mut copies: Vec<[u8; 32]> = Vec::with_capacity(arity);
        let mut i: usize = 0;
        while i < bases.len()
            invariant
                i <= bases@.len(),
                base_tables@.len() == i,
                copies@ == bases@.subrange(0, i as int),
                forall|j: int| 0 <= j < bases@.len() ==> is_point(#[trigger] bases@[j]@),
                forall|j: int| 0 <= j < i ==> (#[trigger] base_tables@[j]).base() == bases@[j]@,
            decreases bases@.len() - i,
        {
            base_tables.push(make_base_table(bases[i]));
            copies.push(bases[i]);
            i += 1;
            proof {
                assert(copies@ =~= bases@.subrange(0, i as int));
            }
        }
        proof {
            assert(copies@ =~= bases@);
        }
        let precomp = make_msm_table(copies);
        Some(VerkleHasher { num_hashes: 0, arity, precomp, base_tables })
    }
}

impl TreeHasherFunc<String, VerkleComm> for VerkleHasher {
    closed spec fn wf(&self) -> bool {
        &&& self.precomp.bases().len() == self.arity
        &&& self.base_tables@.len() == self.arity
        &&& forall|i: int| 0 <= i < self.arity ==> (#[trigger] self.base_tables@[i]).base() == self.precomp.bases()[i]
    }

    closed spec fn arity(&self) -> nat {
        self.arity as nat
    }

    open spec fn leaf_fn(&self) -> spec_fn(usize, String) -> VerkleComm {
        |offset: usize, data: String|
            VerkleComm::Leaf(scalar_from_hash(leaf_tag() + vstd::utf8::encode_utf8(data@)))
    }

    open spec fn nodes_fn(&self) -> spec_fn(VerkleComm, Seq<VerkleComm>, Seq<(usize, VerkleComm)>) -> VerkleComm {
        |p: VerkleComm, olds: Seq<VerkleComm>, news: Seq<(usize, VerkleComm)>|
            verkle_nodes(self.bases(), p, olds, news)
    }

    closed spec fn computations(&self) -> nat {
        self.num_hashes as nat
    }

    open spec fn leaf_cost() -> nat {
        0
    }

    /// One exponentiation per changed child.
    open spec fn nodes_cost(arity: nat, num_children: nat, num_changed: nat) -> nat {
        num_changed
    }

    proof fn lemma_computations_bounded(&self) {
    }

    open spec fn blank() -> VerkleComm {
        VerkleComm::Empty
    }

    open spec fn leaf_kind(h: VerkleComm) -> bool {
        h is Leaf
    }

    open spec fn node_kind(h: VerkleComm) -> bool {
        match h {
            VerkleComm::Internal(g) => is_point(g@),
            _ => false,
        }
    }

    fn empty_digest() -> (r: VerkleComm) {
        VerkleComm::Empty
    }

    fn get_num_computations(&self) -> (r: usize) {
        self.num_hashes
    }

    fn hash_leaf_data(&mut self, offset: usize, leaf: String) -> (r: VerkleComm) {
        let mut bytes: Vec<u8> = Vec::new();
        absorb(&mut bytes, "leaf:".as_bytes());
        absorb(&mut bytes, leaf.as_str().as_bytes());
        VerkleComm::Leaf(hash_bytes_to_scalar(bytes.as_slice()))
    }

    fn hash_nodes(
        &mut self,
        old_parent_comm: VerkleComm,
        old_children: Vec<VerkleComm>,
        new_children: &Vec<(usize, VerkleComm)>,
    ) -> (r: VerkleComm) {
        let ghost ds = scalar_deltas(old_children@, new_children@);
        let mut updates: Vec<(usize, [u8; 32])> = Vec::with_capacity(new_children.len());
        let mut t: usize = 0;
        while t < new_children.len()
            invariant
                ds == scalar_deltas(old_children@, new_children@),
                t <= new_children@.len(),
                updates@.len() == t,
                forall|j: int|
                    0 <= j < t ==> (#[trigger] updates@[j]).0 == ds[j].0 && updates@[j].1@ == ds[j].1,
                offsets_distinct(new_children@, old_children@.len() as int),
                forall|j: int|
                    0 <= j < new_children@.len() ==> {
                        let (o, n) = #[trigger] new_children@[j];
                        let prev = old_children@[o as int];
                        (Self::leaf_kind(n) && (prev == Self::blank() || Self::leaf_kind(prev)))
                            || (Self::node_kind(n) && (prev == Self::blank() || Self::node_kind(prev)))
                    },
            decreases new_children@.len() - t,
        {
            let (offset, new_child) = new_children[t];
            proof {
                assert(new_children@[t as int] == (offset, new_child));
            }
            let delta = match (old_children[offset], new_child) {
                (VerkleComm::Empty, VerkleComm::Internal(new_gelem)) => hash_to_scalar(&new_gelem),
                (VerkleComm::Empty, VerkleComm::Leaf(new_scalar)) => new_scalar,
                (VerkleComm::Internal(old_gelem), VerkleComm::Internal(new_gelem)) => {
                    let old_scalar = hash_to_scalar(&old_gelem);
                    let new_scalar = hash_to_scalar(&new_gelem);
                    sub_scalars(&new_scalar, &old_scalar)
                },
                (VerkleComm::Leaf(old_scalar), VerkleComm::Leaf(new_scalar)) => {
                    sub_scalars(&new_scalar, &old_scalar)
                },
                _ => {
                    // the tree never empties a node nor changes its kind
                    proof {
                        assert(false);
                    }
                    identity_point()
                },
            };
            updates.push((offset, delta));
            t += 1;
        }
        proof {
            assert(updates@.len() == ds.len());
        }
        let num_exps = updates.len();
        self.num_hashes = self.num_hashes.saturating_add(num_exps);
        let mut delta = identity_point();
        if num_exps <= SERIAL_EXP_CUTOFF {
            // few changes: one multiplication per changed child, with its precomputed table
            let mut j: usize = 0;
            while j < updates.len()
                invariant
                    self.wf(),
                    self.arity == old(self).arity,
                    self.precomp == old(self).precomp,
                    j <= updates@.len(),
                    updates@.len() == ds.len(),
                    forall|i: int|
                        0 <= i < ds.len() ==> (#[trigger] updates@[i]).0 == ds[i].0 && updates@[i].1@ == ds[i].1,
                    forall|i: int| 0 <= i < ds.len() ==> (#[trigger] ds[i]).0 < self.arity,
                    delta == serial_sum(self.bases(), ds.subrange(0, j as int)),
                    is_point(delta@),
                decreases updates@.len() - j,
            {
                let (index, exp) = updates[j];
                let term = table_mul(&self.base_tables[index], &exp);
                delta = add_points(&delta, &term);
                proof {
                    assert(ds.subrange(0, j + 1).drop_last() =~= ds.subrange(0, j as int));
                }
                j += 1;
            }
            proof {
                assert(ds.subrange(0, ds.len() as int) =~= ds);
            }
        } else {
            // many changes: one multi-scalar multiplication over all base points
            let mut scalars: Vec<[u8; 32]> = Vec::with_capacity(self.arity);
            let zero = identity_point();
            while scalars.len() < self.arity
                invariant
                    scalars@.len() <= self.arity,
                    zero == zeros(),
                    forall|i: int| 0 <= i < scalars@.len() ==> (#[trigger] scalars@[i])@ == zeros()@,
                decreases self.arity - scalars@.len(),
            {
                scalars.push(zero);
            }
            let mut j: usize = 0;
            while j < updates.len()
                invariant
                    j <= updates@.len(),
                    scalars@.len() == self.arity,
                    updates@.len() == ds.len(),
                    forall|i: int|
                        0 <= i < ds.len() ==> (#[trigger] updates@[i]).0 == ds[i].0 && updates@[i].1@ == ds[i].1,
                    forall|i: int| 0 <= i < ds.len() ==> (#[trigger] ds[i]).0 < self.arity,
                    scalars@.map_values(|s: [u8; 32]| s@) == scalar_vector(
                        self.arity as nat,
                        ds.subrange(0, j as int),
                    ),
                decreases updates@.len() - j,
            {
                let (index, exp) = updates[j];
                scalars.set(index, exp);
                proof {
                    assert(ds.subrange(0, j + 1).drop_last() =~= ds.subrange(0, j as int));
                }
                j += 1;
            }
            proof {
                assert(ds.subrange(0, ds.len() as int) =~= ds);
            }
            proof {
                assert(self.bases().len() == self.arity);
            }
            delta = msm(&self.precomp, &scalars);
        }
        proof {
            assert(delta == commitment_delta(self.bases(), ds));
        }
        match old_parent_comm {
            VerkleComm::Internal(small_gelem) => {
                VerkleComm::Internal(add_points(&small_gelem, &delta))
            },
            _ => VerkleComm::Internal(delta),
        }
    }
}

/// A perfect Verkle tree of the given arity and height, with one base point per offset;
/// `None` unless there are `arity` base points, each the encoding of a point.
pub fn new_verkle_from_height(arity: usize, height: usize, bases: Vec<[u8; 32]>) -> (r: Option<
    AbstractMerkle<String, VerkleComm, VerkleHasher>,
>)
    requires
        arity >= 2,
        pow(arity as int, height as nat) * arity <= usize::MAX,
    ensures
        r is Some <==> (bases@.len() == arity && forall|i: int|
            0 <= i < bases@.len() ==> is_point(#[trigger] bases@[i]@)),
        r matches Some(t) ==> t.is_new(arity as int, pow(arity as int, height as nat))
            && t.spec_hasher().computations() == 0,
{
    match VerkleHasher::new(arity, bases) {
        Some(hasher) => Some(AbstractMerkle::new(arity, height, hasher)),
        None => None,
    }
}

/// A Verkle tree of the given arity with `num_leaves` leaves, with one base point per offset;
/// `None` unless there are `arity` base points, each the encoding of a point.
pub fn new_verkle_from_leaves(arity: usize, num_leaves: usize, bases: Vec<[u8; 32]>) -> (r: Option<
    AbstractMerkle<String, VerkleComm, VerkleHasher>,
>)
    requires
        arity >= 2,
        num_leaves >= 1,
        num_leaves * arity <= usize::MAX,
    ensures
        r is Some <==> (bases@.len() == arity && forall|i: int|
            0 <= i < bases@.len() ==> is_point(#[trigger] bases@[i]@)),
        r matches Some(t) ==> t.is_new(arity as int, num_leaves as int) && t.spec_hasher().computations() == 0,
{
    match VerkleHasher::new(arity, bases) {
        Some(hasher) => Some(AbstractMerkle::with_num_leaves(arity, num_leaves, hasher)),
        None => None,
    }
}

} // verus!
