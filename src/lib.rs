use vstd::prelude::*;

/// Ristretto points and scalars, kept as their 32-byte encodings.
pub mod curve;
/// How many internal nodes a tree has, and where its leaves sit.
pub mod layout;
/// The tree: construction and batched updates.
pub mod merkle;
/// The plain Merkle policy over a collision-resistant hash.
pub mod merkle_crhf;
/// The incremental (Merkle++) policy.
pub mod merkle_pp;
/// Positions in the flat array.
pub mod node_index;
/// What a batch update does to the digests, pass by pass.
pub mod propagation;
/// The hashing policy that a tree delegates to.
pub mod tree_hasher;
/// The vector-commitment (Verkle) policy.
pub mod verkle;

verus! {

use vstd::arithmetic::power::pow;

/// The number of leaves of a perfect tree of the given arity and height: `arity^height`.
pub fn max_leaves(arity: usize, height: usize) -> (r: usize)
    requires
        pow(arity as int, height as nat) <= usize::MAX,
    ensures
        r == pow(arity as int, height as nat),
{
    let mut r: usize = 1;
    let mut h: usize = 0;
    proof {
        vstd::arithmetic::power::lemma_pow0(arity as int);
    }
    while h < height
        invariant
            h <= height,
            r == pow(arity as int, h as nat),
            pow(arity as int, height as nat) <= usize::MAX,
        decreases height - h,
    {
        proof {
            vstd::arithmetic::power::lemma_pow_adds(arity as int, h as nat, 1);
            vstd::arithmetic::power::lemma_pow1(arity as int);
        }
        assert(r * arity == pow(arity as int, (h + 1) as nat));
        assert(r * arity <= usize::MAX) by {
            if arity > 0 {
                vstd::arithmetic::power::lemma_pow_increases(arity as nat, (h + 1) as nat, height as nat);
            } else {
                assert(r * arity == 0);
            }
        }
        r = r * arity;
        h = h + 1;
    }
    r
}

} // verus!
