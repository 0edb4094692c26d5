use vstd::prelude::*;

verus! {

/// Whether `new_children` names strictly increasing offsets, each below `len`.
pub open spec fn offsets_ascending<H>(new_children: Seq<(usize, H)>, len: int) -> bool {
    &&& forall|j: int| 0 <= j < new_children.len() ==> (#[trigger] new_children[j]).0 < len
    &&& forall|j: int, l: int|
        0 <= j < l < new_children.len() ==> (#[trigger] new_children[j]).0 < (#[trigger] new_children[l]).0
}

/// Whether `new_children` names distinct offsets, each below `len`.
pub open spec fn offsets_distinct<H>(new_children: Seq<(usize, H)>, len: int) -> bool {
    &&& forall|j: int| 0 <= j < new_children.len() ==> (#[trigger] new_children[j]).0 < len
    &&& forall|j: int, l: int|
        0 <= j < new_children.len() && 0 <= l < new_children.len() && j != l ==> (#[trigger] new_children[j]).0
            != (#[trigger] new_children[l]).0
}

/// `x`, or `usize::MAX` if `x` is larger.
pub open spec fn saturating(x: nat) -> nat {
    if x > usize::MAX {
        usize::MAX as nat
    } else {
        x
    }
}

/// Saturating twice is saturating once.
pub proof fn lemma_saturating_add(x: nat, a: nat)
    ensures
        saturating(saturating(x) + a) == saturating(x + a),
{
}

/// A hashing policy: how a tree digests its leaves, and how a parent's digest follows from
/// changes to its children.
pub trait TreeHasherFunc<LeafDataType, HashType>: Sized {
    /// The policy's own invariant.
    spec fn wf(&self) -> bool;

    /// The arity of the trees the policy serves.
    spec fn arity(&self) -> nat;

    /// The digest of a leaf, given its offset below its parent and its data.
    spec fn leaf_fn(&self) -> spec_fn(usize, LeafDataType) -> HashType;

    /// A parent's new digest, given its old digest, the old digests of its children by offset,
    /// and the `(offset, new digest)` of each child that changed.
    spec fn nodes_fn(&self) -> spec_fn(HashType, Seq<HashType>, Seq<(usize, HashType)>) -> HashType;

    /// The number of hash computations performed so far.
    spec fn computations(&self) -> nat;

    /// The computations counted for digesting one leaf.
    spec fn leaf_cost() -> nat;

    /// The computations counted for a parent, in a tree of the given arity, with
    /// `num_children` children of which `num_changed` changed.
    spec fn nodes_cost(arity: nat, num_children: nat, num_changed: nat) -> nat;

    /// The counter fits in a `usize`.
    proof fn lemma_computations_bounded(&self)
        ensures
            self.computations() <= usize::MAX,
    ;

    /// The digest of a node that was never written.
    spec fn blank() -> HashType;

    /// The digests that `hash_leaf_data` returns.
    spec fn leaf_kind(h: HashType) -> bool;

    /// The digests that `hash_nodes` returns.
    spec fn node_kind(h: HashType) -> bool;

    fn empty_digest() -> (r: HashType)
        ensures
            r == Self::blank(),
    ;

    fn get_num_computations(&self) -> (r: usize)
        ensures
            r == self.computations(),
    ;

    /// Digests the data of a leaf; `offset` is the leaf's position below its parent.
    fn hash_leaf_data(&mut self, offset: usize, leaf: LeafDataType) -> (r: HashType)
        requires
            old(self).wf(),
            offset < old(self).arity(),
        ensures
            r == (old(self).leaf_fn())(offset, leaf),
            Self::leaf_kind(r),
            final(self).computations() == saturating(old(self).computations() + Self::leaf_cost()),
            final(self).wf(),
            final(self).arity() == old(self).arity(),
            final(self).leaf_fn() == old(self).leaf_fn(),
            final(self).nodes_fn() == old(self).nodes_fn(),
    ;

    /// Computes a parent's new digest from its old digest, the old digests of all its present
    /// children (by offset), and the new digests of the children that changed.
    fn hash_nodes(
        &mut self,
        old_parent_hash: HashType,
        old_children: Vec<HashType>,
        new_children: &Vec<(usize, HashType)>,
    ) -> (r: HashType)
        requires
            old(self).wf(),
            old_children.len() <= old(self).arity(),
            old_parent_hash == Self::blank() || Self::node_kind(old_parent_hash),
            offsets_distinct(new_children@, old_children.len() as int),
            forall|j: int|
                0 <= j < new_children@.len() ==> {
                    let (o, n) = #[trigger] new_children@[j];
                    let prev = old_children@[o as int];
                    (Self::leaf_kind(n) && (prev == Self::blank() || Self::leaf_kind(prev)))
                        || (Self::node_kind(n) && (prev == Self::blank() || Self::node_kind(prev)))
                },
        ensures
            r == (old(self).nodes_fn())(old_parent_hash, old_children@, new_children@),
            Self::node_kind(r),
            final(self).computations() == saturating(
                old(self).computations() + Self::nodes_cost(
                    old(self).arity(),
                    old_children@.len() as nat,
                    new_children@.len() as nat,
                ),
            ),
            final(self).wf(),
            final(self).arity() == old(self).arity(),
            final(self).leaf_fn() == old(self).leaf_fn(),
            final(self).nodes_fn() == old(self).nodes_fn(),
    ;
}

} // verus!
